//! Names of files and directories, and relative paths.
//!
//! Paths are Unix paths: components are separated by `/`.
use crate::text::{
    chars_of, control, holds, is_control, join, joined, law_character_classes, law_join_of_both,
    law_joined_pieces_can_be_split, law_split_at_separator, lemma_all_non_empty, lemma_non_empty_concat,
    lemma_non_empty_one, lemma_split_is_not_empty, lemma_trim_extra_end, lemma_trim_extra_start,
    lemma_trim_is_part, non_empty, option_view, same, split, split_at_each,
    string_of, trim, trim_start, trimmed, views, whitespace, without_empty, CharClass,
};
use vstd::prelude::*;

verus! {

/// The most characters that a file or directory name made by the export has.
pub const MAX_NAME_CHARS: usize = 120;

/// The characters that a file or directory name must not hold.
pub open spec fn forbidden_in_name(c: char) -> bool {
    ||| control(c)
    ||| c == '/'
    ||| c == '\\'
    ||| c == ':'
    ||| c == '*'
    ||| c == '?'
    ||| c == '"'
    ||| c == '<'
    ||| c == '>'
    ||| c == '|'
}

/// `name` with each forbidden character replaced by a space.
pub open spec fn cleaned_name(name: Seq<char>) -> Seq<char> {
    name.map_values(|c: char| if forbidden_in_name(c) { ' ' } else { c })
}

/// The words of `name`, one space between each two, without full stops and
/// spaces at the ends.
pub open spec fn collapsed_name(name: Seq<char>) -> Seq<char> {
    trim(
        join(non_empty(split(cleaned_name(name), CharClass::Whitespace)), " "@),
        CharClass::DotOrSpace,
    )
}

/// The version of `name` that is safe as a file or directory name.
pub open spec fn sanitized(name: Seq<char>) -> Seq<char> {
    let collapsed = collapsed_name(name);
    if collapsed.len() == 0 {
        "Untitled"@
    } else if collapsed.len() > MAX_NAME_CHARS {
        collapsed.take(MAX_NAME_CHARS as int)
    } else {
        collapsed
    }
}

fn is_forbidden_in_name(c: char) -> (res: bool)
    ensures
        res == forbidden_in_name(c),
{
    is_control(c) || c == '/' || c == '\\' || c == ':' || c == '*' || c == '?' || c == '"' || c == '<' || c
        == '>' || c == '|'
}

/// A version of `name` that is safe to use as a file or directory name.
pub fn sanitize_file_name(name: &str) -> (res: String)
    ensures
        res@ == sanitized(name@),
{
    let chars = chars_of(name);
    let mut cleaned = String::new();
    for i in 0..chars.len()
        invariant
            cleaned@ == cleaned_name(chars@.take(i as int)),
    {
        let c = chars[i];
        if is_forbidden_in_name(c) {
            cleaned.push(' ');
        } else {
            cleaned.push(c);
        }
        assert(chars@.take(i + 1) == chars@.take(i as int).push(c));
        assert(cleaned@ == cleaned_name(chars@.take(i + 1)));
    }
    assert(chars@.take(chars@.len() as int) == chars@);
    let words = without_empty(&split_at_each(cleaned.as_str(), CharClass::Whitespace));
    let collapsed = trimmed(joined(&words, " ").as_str(), CharClass::DotOrSpace);
    let kept = chars_of(collapsed.as_str());
    if kept.len() == 0 {
        "Untitled".to_owned()
    } else if kept.len() > MAX_NAME_CHARS {
        string_of(&kept, 0, MAX_NAME_CHARS)
    } else {
        collapsed
    }
}

/// The named components of a path: what stands between its slashes, but for
/// nothing at all and `.`.
pub open spec fn components(path: Seq<char>) -> Seq<Seq<char>> {
    split(path, CharClass::One('/')).filter(|part: Seq<char>| part.len() > 0 && part != "."@)
}

/// Whether a path is relative and descends only: it begins neither with a
/// slash nor with `.`, and no component is `..`.
pub open spec fn descends_only(path: Seq<char>) -> bool {
    &&& path.len() == 0 || path[0] != '/'
    &&& split(path, CharClass::One('/'))[0] != "."@
    &&& !split(path, CharClass::One('/')).contains(".."@)
}

/// The last component of a path, if it is a name.
pub open spec fn file_name(path: Seq<char>) -> Option<Seq<char>> {
    if components(path).len() == 0 || components(path).last() == ".."@ {
        None
    } else {
        Some(components(path).last())
    }
}

/// The named components of a path.
pub fn path_components(path: &str) -> (res: Vec<String>)
    ensures
        views(res@) == components(path@),
{
    let parts = split_at_each(path, CharClass::One('/'));
    let mut kept: Vec<String> = Vec::new();
    let ghost keep = |part: Seq<char>| part.len() > 0 && part != "."@;
    for i in 0..parts.len()
        invariant
            keep == |part: Seq<char>| part.len() > 0 && part != "."@,
            views(kept@) == views(parts@).take(i as int).filter(keep),
    {
        reveal(Seq::filter);
        let ghost before = views(kept@);
        assert(views(parts@).take(i + 1).drop_last() == views(parts@).take(i as int));
        if !parts[i].as_str().is_empty() && !same(parts[i].as_str(), ".") {
            kept.push(parts[i].clone());
            assert(views(kept@) == before.push(parts@[i as int]@));
        }
    }
    assert(views(parts@).take(parts@.len() as int) == views(parts@));
    kept
}

/// Whether a path is relative and descends only.
pub fn path_descends_only(path: &str) -> (res: bool)
    ensures
        res == descends_only(path@),
{
    let chars = chars_of(path);
    if chars.len() > 0 && chars[0] == '/' {
        return false;
    }
    let parts = split_at_each(path, CharClass::One('/'));
    proof {
        lemma_split_is_not_empty(path@, CharClass::One('/'));
        assert(views(parts@)[0] == parts@[0]@);
    }
    !same(parts[0].as_str(), ".") && !holds(&parts, &"..".to_owned())
}

/// The last component of a path, if it is a name.
pub fn path_file_name(path: &str) -> (res: Option<String>)
    ensures
        option_view(res) == file_name(path@),
{
    let parts = path_components(path);
    let count: usize = parts.len();
    if count == 0 {
        return None;
    }
    assert(views(parts@).last() == parts@.last()@);
    if same(parts[count - 1].as_str(), "..") {
        None
    } else {
        Some(parts[count - 1].clone())
    }
}

/// Where the extension of a file name begins: at the last full stop, unless
/// that is the first character, and else at the end.
pub open spec fn extension_start(name: Seq<char>) -> int {
    if exists|i: int| is_last_dot(name, i) {
        choose|i: int| is_last_dot(name, i)
    } else {
        name.len() as int
    }
}

/// Whether the last full stop of `name` is at `i`, behind the first character.
pub open spec fn is_last_dot(name: Seq<char>, i: int) -> bool {
    &&& 0 < i < name.len()
    &&& name[i] == '.'
    &&& forall|j: int| i < j < name.len() ==> name[j] != '.'
}

/// The file name at the end of a path, empty if there is none.
pub open spec fn name_or_empty(path: Seq<char>) -> Seq<char> {
    match file_name(path) {
        Some(name) => name,
        None => Seq::empty(),
    }
}

/// The file name at the end of a path, without its extension.
pub open spec fn stem(path: Seq<char>) -> Seq<char> {
    name_or_empty(path).take(extension_start(name_or_empty(path)))
}

/// The extension of the file name at the end of a path, with its full stop.
pub open spec fn extension(path: Seq<char>) -> Seq<char> {
    name_or_empty(path).skip(extension_start(name_or_empty(path)))
}

/// The stem of the file name at the end of a path, and its extension.
pub fn stem_and_extension(path: &str) -> (res: (String, String))
    ensures
        res.0@ == stem(path@),
        res.1@ == extension(path@),
{
    let name = match path_file_name(path) {
        Some(name) => name,
        None => String::new(),
    };
    let chars = chars_of(name.as_str());
    let mut i: usize = chars.len();
    while i > 1
        invariant
            i <= chars@.len(),
            chars@ == name_or_empty(path@),
            forall|j: int| i <= j < chars@.len() ==> chars@[j] != '.',
        decreases i,
    {
        i = i - 1;
        if chars[i] == '.' {
            assert(is_last_dot(chars@, i as int));
            assert(extension_start(chars@) == i);
            return (string_of(&chars, 0, i), string_of(&chars, i, chars.len()));
        }
    }
    assert(forall|j: int| !is_last_dot(chars@, j));
    assert(chars@.take(chars@.len() as int) == chars@);
    assert(chars@.skip(chars@.len() as int) == Seq::<char>::empty());
    (name, String::new())
}

/// Whether every character of `s` may stand in a sanitized name: none is
/// forbidden, and the only white space is the plain space.
pub open spec fn is_name_text(s: Seq<char>) -> bool {
    forall|i: int| 0 <= i < s.len() ==> is_name_char(#[trigger] s[i])
}

/// Whether `c` may stand in a sanitized name.
pub open spec fn is_name_char(c: char) -> bool {
    !forbidden_in_name(c) && (whitespace(c) ==> c == ' ')
}

/// Whether no two spaces of `s` are next to each other.
pub open spec fn is_single_spaced(s: Seq<char>) -> bool {
    forall|i: int, j: int|
        0 <= i < s.len() && j == i + 1 && j < s.len() ==> !(#[trigger] s[i] == ' ' && #[trigger] s[j]
            == ' ')
}

/// A word of a sanitized name.
spec fn is_word(s: Seq<char>) -> bool {
    s.len() > 0 && is_word_text(s)
}

spec fn is_word_text(s: Seq<char>) -> bool {
    forall|i: int| 0 <= i < s.len() ==> !forbidden_in_name(#[trigger] s[i]) && !whitespace(s[i])
}

proof fn lemma_pieces_are_word_text(s: Seq<char>)
    requires
        forall|i: int| 0 <= i < s.len() ==> !forbidden_in_name(#[trigger] s[i]),
    ensures
        forall|k: int|
            0 <= k < split(s, CharClass::Whitespace).len() ==> is_word_text(
                #[trigger] split(s, CharClass::Whitespace)[k],
            ),
    decreases s.len(),
{
    if s.len() > 0 {
        lemma_pieces_are_word_text(s.drop_last());
        lemma_split_is_not_empty(s.drop_last(), CharClass::Whitespace);
        let before = split(s.drop_last(), CharClass::Whitespace);
        assert(is_word_text(before[before.len() - 1]));
        assert(!whitespace(s.last()) ==> is_word_text(before.last().push(s.last())));
    }
}

proof fn lemma_non_empty_are_words(pieces: Seq<Seq<char>>)
    requires
        forall|k: int| 0 <= k < pieces.len() ==> is_word_text(#[trigger] pieces[k]),
    ensures
        forall|k: int| 0 <= k < non_empty(pieces).len() ==> is_word(#[trigger] non_empty(pieces)[k]),
    decreases pieces.len(),
{
    reveal(Seq::filter);
    if pieces.len() > 0 {
        let before = non_empty(pieces.drop_last());
        lemma_non_empty_are_words(pieces.drop_last());
        assert(is_word_text(pieces[pieces.len() - 1]));
        assert(non_empty(pieces) == if pieces.last().len() > 0 {
            before.push(pieces.last())
        } else {
            before
        });
        assert forall|k: int| 0 <= k < non_empty(pieces).len() implies is_word(
            #[trigger] non_empty(pieces)[k],
        ) by {
            if k < before.len() {
                assert(is_word(before[k]));
            }
        }
    }
}

proof fn lemma_joined_words(words: Seq<Seq<char>>)
    requires
        forall|k: int| 0 <= k < words.len() ==> is_word(#[trigger] words[k]),
    ensures
        is_name_text(join(words, " "@)),
        is_single_spaced(join(words, " "@)),
        words.len() > 0 ==> join(words, " "@).len() > 0 && !whitespace(join(words, " "@).first())
            && !whitespace(join(words, " "@).last()),
    decreases words.len(),
{
    reveal_strlit(" ");
    if words.len() > 0 {
        let before = words.drop_last();
        lemma_joined_words(before);
        assert(is_word(words[words.len() - 1]));
        if words.len() > 1 {
            let head = join(before, " "@);
            let all = join(words, " "@);
            let last = words.last();
            assert(all.len() == head.len() + 1 + last.len());
            assert forall|i: int| 0 <= i < all.len() implies is_name_char(#[trigger] all[i]) && (i < head.len()
                ==> all[i] == head[i]) && (i == head.len() ==> all[i] == ' ') && (i > head.len() ==> all[i]
                == last[i - head.len() - 1]) by {}
            assert(all[head.len() - 1] == head.last());
            assert(all.last() == last.last());
            assert(all.first() == head.first());
        }
    }
}

/// A sanitized name is safe as the name of a file or directory: it has at
/// least one and at most [`MAX_NAME_CHARS`] characters, none of them forbidden
/// (so it is a single path component), its only white space are single plain
/// spaces, and it begins neither with a full stop (so it is neither `.` nor
/// `..`, and not hidden) nor with a space. Where nothing was cut off, it does
/// not end with either of them.
pub proof fn law_sanitized_is_safe(name: Seq<char>)
    ensures
        0 < sanitized(name).len() <= MAX_NAME_CHARS,
        is_name_text(sanitized(name)),
        is_single_spaced(sanitized(name)),
        sanitized(name).first() != '.',
        sanitized(name).first() != ' ',
        collapsed_name(name).len() <= MAX_NAME_CHARS ==> sanitized(name).last() != '.'
            && sanitized(name).last() != ' ',
{
    reveal_strlit("Untitled");
    let words = non_empty(split(cleaned_name(name), CharClass::Whitespace));
    lemma_pieces_are_word_text(cleaned_name(name));
    lemma_non_empty_are_words(split(cleaned_name(name), CharClass::Whitespace));
    lemma_joined_words(words);
    let all = join(words, " "@);
    let span = lemma_trim_is_part(all, CharClass::DotOrSpace);
    let collapsed = collapsed_name(name);
    assert(is_name_text(collapsed));
    assert(is_single_spaced(collapsed)) by {
        assert forall|i: int, j: int| 0 <= i < collapsed.len() && j == i + 1 && j < collapsed.len() implies !(
            #[trigger] collapsed[i] == ' ' && #[trigger] collapsed[j] == ' ') by {
            assert(collapsed[i] == all[span.0 + i]);
            assert(collapsed[j] == all[span.0 + j]);
        }
    }
}

/// The words that a sanitized name is made of.
spec fn words(name: Seq<char>) -> Seq<Seq<char>> {
    non_empty(split(cleaned_name(name), CharClass::Whitespace))
}

proof fn lemma_words_at_separator(a: Seq<char>, c: char, b: Seq<char>)
    requires
        whitespace(c) || forbidden_in_name(c),
    ensures
        words(a + seq![c] + b) == words(a) + words(b),
{
    let clean = if forbidden_in_name(c) {
        ' '
    } else {
        c
    };
    assert(cleaned_name(a + seq![c] + b) == cleaned_name(a) + seq![clean] + cleaned_name(b));
    law_split_at_separator(cleaned_name(a), clean, cleaned_name(b), CharClass::Whitespace);
    lemma_non_empty_concat(
        split(cleaned_name(a), CharClass::Whitespace),
        split(cleaned_name(b), CharClass::Whitespace),
    );
}

proof fn lemma_no_words()
    ensures
        words(Seq::empty()) == Seq::<Seq<char>>::empty(),
{
    assert(cleaned_name(Seq::empty()) == Seq::<char>::empty());
    lemma_non_empty_one(Seq::empty());
}

proof fn lemma_split_first_char(c: char, s: Seq<char>, class: CharClass)
    requires
        !class.holds(c),
    ensures
        split(seq![c] + s, class) == seq![seq![c] + split(s, class)[0]] + split(s, class).drop_first(),
    decreases s.len(),
{
    let all = seq![c] + s;
    if s.len() == 0 {
        assert(all.drop_last() == Seq::<char>::empty());
        assert(all.last() == c);
        assert(split(Seq::<char>::empty(), class) == seq![Seq::<char>::empty()]);
        assert(split(all, class) =~= seq![seq![c]]);
        assert(seq![c] + Seq::<char>::empty() == seq![c]);
        assert(split(all, class) =~= seq![seq![c] + split(s, class)[0]] + split(s, class).drop_first());
    } else {
        let head = s.drop_last();
        let before = split(head, class);
        lemma_split_first_char(c, head, class);
        lemma_split_is_not_empty(head, class);
        assert(all.drop_last() == seq![c] + head);
        assert(all.last() == s.last());
        if !class.holds(s.last()) && before.len() == 1 {
            assert((seq![c] + before[0]).push(s.last()) == seq![c] + before[0].push(s.last()));
        }
        assert(split(all, class) =~= seq![seq![c] + split(s, class)[0]] + split(s, class).drop_first());
    }
}

proof fn lemma_stop_at_start(name: Seq<char>)
    ensures
        collapsed_name(seq!['.'] + name) == collapsed_name(name),
{
    reveal_strlit(" ");
    let class = CharClass::Whitespace;
    let pieces = split(cleaned_name(name), class);
    let first = pieces[0];
    let more = non_empty(pieces.drop_first());
    lemma_split_is_not_empty(cleaned_name(name), class);
    assert(cleaned_name(seq!['.'] + name) == seq!['.'] + cleaned_name(name));
    lemma_split_first_char('.', cleaned_name(name), class);
    assert(pieces == seq![first] + pieces.drop_first());
    lemma_non_empty_concat(seq![first], pieces.drop_first());
    lemma_non_empty_one(first);
    let stopped = seq!['.'] + first;
    lemma_non_empty_concat(seq![stopped], pieces.drop_first());
    lemma_non_empty_one(stopped);
    assert(words(seq!['.'] + name) == seq![stopped] + more);
    let old = join(words(name), " "@);
    let new = join(seq![stopped] + more, " "@);
    if more.len() > 0 {
        law_join_of_both(seq![stopped], more, " "@);
        if first.len() > 0 {
            law_join_of_both(seq![first], more, " "@);
            assert(new == seq!['.'] + old);
        } else {
            assert(Seq::<Seq<char>>::empty() + more == more);
            assert(new == seq!['.'] + (seq![' '] + old));
            lemma_trim_extra_start(' ', old, CharClass::DotOrSpace);
        }
    } else {
        assert(seq![stopped] + more == seq![stopped]);
        if first.len() > 0 {
            assert(seq![first] + more == seq![first]);
        } else {
            assert(Seq::<Seq<char>>::empty() + more == Seq::<Seq<char>>::empty());
        }
        assert(new == seq!['.'] + old);
    }
    if more.len() > 0 && first.len() == 0 {
        lemma_trim_extra_start('.', seq![' '] + old, CharClass::DotOrSpace);
    } else {
        lemma_trim_extra_start('.', old, CharClass::DotOrSpace);
    }
}

proof fn lemma_stop_at_end(name: Seq<char>)
    ensures
        collapsed_name(name.push('.')) == collapsed_name(name),
{
    reveal_strlit(" ");
    let class = CharClass::Whitespace;
    let pieces = split(cleaned_name(name), class);
    let last = pieces.last();
    let more = non_empty(pieces.drop_last());
    lemma_split_is_not_empty(cleaned_name(name), class);
    let all = cleaned_name(name.push('.'));
    assert(all == cleaned_name(name).push('.'));
    assert(all.drop_last() == cleaned_name(name));
    let stopped = last.push('.');
    assert(split(all, class) == pieces.drop_last() + seq![stopped]);
    assert(pieces == pieces.drop_last() + seq![last]);
    lemma_non_empty_concat(pieces.drop_last(), seq![last]);
    lemma_non_empty_one(last);
    lemma_non_empty_concat(pieces.drop_last(), seq![stopped]);
    lemma_non_empty_one(stopped);
    let old = join(words(name), " "@);
    let new = join(more + seq![stopped], " "@);
    if more.len() > 0 {
        law_join_of_both(more, seq![stopped], " "@);
        if last.len() > 0 {
            law_join_of_both(more, seq![last], " "@);
            assert(new == old.push('.'));
        } else {
            assert(more + Seq::<Seq<char>>::empty() == more);
            assert(new == old.push(' ').push('.'));
            lemma_trim_extra_end(old, ' ', CharClass::DotOrSpace);
        }
    } else {
        assert(more + seq![stopped] == seq![stopped]);
        if last.len() > 0 {
            assert(more + seq![last] == seq![last]);
        } else {
            assert(more + Seq::<Seq<char>>::empty() == Seq::<Seq<char>>::empty());
        }
        assert(new == old.push('.'));
    }
    if more.len() > 0 && last.len() == 0 {
        lemma_trim_extra_end(old.push(' '), '.', CharClass::DotOrSpace);
    } else {
        lemma_trim_extra_end(old, '.', CharClass::DotOrSpace);
    }
}

proof fn lemma_spaced_name(s: Seq<char>)
    requires
        forall|i: int| 0 <= i < s.len() && whitespace(#[trigger] s[i]) ==> s[i] == ' ',
        is_single_spaced(s),
        s.len() > 0 ==> s[0] != ' ',
    ensures
        join(split(s, CharClass::Whitespace), " "@) == s,
        split(s, CharClass::Whitespace).len() > 0,
        forall|k: int|
            0 <= k < split(s, CharClass::Whitespace).len() - 1 ==> (#[trigger] split(
                s,
                CharClass::Whitespace,
            )[k]).len() > 0,
        s.len() > 0 && s.last() != ' ' ==> split(s, CharClass::Whitespace).last().len() > 0,
    decreases s.len(),
{
    reveal_strlit(" ");
    let class = CharClass::Whitespace;
    let pieces = split(s, class);
    if s.len() == 0 {
        assert(pieces == seq![Seq::<char>::empty()]);
    } else {
        let head = s.drop_last();
        let before = split(head, class);
        assert forall|i: int| 0 <= i < head.len() && whitespace(#[trigger] head[i]) implies head[i] == ' ' by {
            assert(head[i] == s[i]);
        }
        assert forall|i: int, j: int| 0 <= i < head.len() && j == i + 1 && j < head.len() implies !(
        #[trigger] head[i] == ' ' && #[trigger] head[j] == ' ') by {
            assert(head[i] == s[i] && head[j] == s[j]);
        }
        lemma_spaced_name(head);
        if class.holds(s.last()) {
            assert(s.last() == s[s.len() - 1]);
            assert(s.last() == ' ');
            assert(head.len() > 0);
            assert(head.last() == s[s.len() - 2]);
            assert(s[s.len() - 2] != ' ');
            assert(pieces.drop_last() == before);
            assert(pieces.last() == Seq::<char>::empty());
            assert(pieces.len() >= 2);
            assert(join(pieces, " "@) == join(before, " "@) + " "@ + pieces.last());
            assert(join(pieces, " "@) =~= s);
            assert forall|k: int| 0 <= k < pieces.len() - 1 implies (#[trigger] pieces[k]).len() > 0 by {
                assert(pieces[k] == before[k]);
                assert(k == before.len() - 1 ==> before[k] == before.last());
            }
        } else {
            assert(pieces.drop_last() == before.drop_last());
            assert(pieces.last() == before.last().push(s.last()));
            assert(s == head.push(s.last()));
            if before.len() == 1 {
                assert(before[0] == head);
                assert(pieces.len() == 1);
                assert(pieces[0] == head.push(s.last()));
            } else {
                assert(before.len() > 1);
                assert(join(before, " "@) == join(before.drop_last(), " "@) + " "@ + before.last());
                assert(join(pieces, " "@) == join(before.drop_last(), " "@) + " "@ + before.last().push(s.last()));
            }
            assert(join(pieces, " "@) =~= s);
            assert forall|k: int| 0 <= k < pieces.len() - 1 implies (#[trigger] pieces[k]).len() > 0 by {
                assert(pieces[k] == before[k]);
            }
        }
    }
}

/// The characters that count as a space between the words of a name, by their
/// numbers in Unicode: controls, `" * / : < > ? \ |`, and white space.
pub open spec fn keeps_words_apart(c: char) -> bool {
    let n = c as u32;
    ||| n < 32 || n == 127 || 128 <= n <= 159
    ||| n == 34 || n == 42 || n == 47 || n == 58 || n == 60 || n == 62 || n == 63 || n == 92 || n == 124
    ||| n == 32 || n == 160 || n == 5760 || 8192 <= n <= 8202 || n == 8232 || n == 8233 || n == 8239
    ||| n == 8287 || n == 12288
}

/// A name that is safe already is kept, and where it is too long its first 120
/// characters are. Such a name has at least one character, neither a control
/// nor one of `/ \ : * ? " < > |`, no white space but single plain spaces, and
/// at its ends neither a full stop nor a space.
pub proof fn law_safe_name_is_kept(name: Seq<char>)
    requires
        name.len() > 0,
        forall|i: int|
            0 <= i < name.len() ==> #[trigger] name[i] == ' ' || !keeps_words_apart(name[i]),
        forall|i: int, j: int|
            0 <= i < j < name.len() && #[trigger] name[i] == ' ' && #[trigger] name[j] == ' ' ==> i + 1 < j,
        name.first() != '.' && name.first() != ' ',
        name.last() != '.' && name.last() != ' ',
    ensures
        sanitized(name) == if name.len() <= 120 {
            name
        } else {
            name.take(120)
        },
{
    assert forall|i: int| 0 <= i < name.len() implies cleaned_name(name)[i] == #[trigger] name[i] by {
        law_character_classes(name[i], ' ');
        assert(forbidden_in_name(name[i]) ==> keeps_words_apart(name[i]));
    }
    assert(cleaned_name(name) =~= name);
    lemma_spaced_name(name);
    let pieces = split(name, CharClass::Whitespace);
    assert forall|k: int| 0 <= k < pieces.len() implies (#[trigger] pieces[k]).len() > 0 by {
        assert(k == pieces.len() - 1 ==> pieces[k] == pieces.last());
    }
    lemma_all_non_empty(pieces);
    assert(trim_start(name, CharClass::DotOrSpace) == name);
}

/// What a name is sanitized to does not depend on how its words are kept apart,
/// nor on full stops and spaces around them: a control, a white space, or one of
/// `/ \ : * ? " < > |` counts as a space, several spaces count as one, and a
/// full stop or a space at an end as none. Where nothing is left the name is
/// `Untitled`. With [`law_safe_name_is_kept`] this says what becomes of every
/// name.
pub proof fn law_names_sanitized_alike(a: Seq<char>, c: char, b: Seq<char>)
    ensures
        keeps_words_apart(c) ==> sanitized(a + seq![c] + b) == sanitized(a + seq![' '] + b),
        sanitized(a + seq![' ', ' '] + b) == sanitized(a + seq![' '] + b),
        sanitized(seq![' '] + a) == sanitized(a),
        sanitized(a + seq![' ']) == sanitized(a),
        sanitized(seq!['.'] + a) == sanitized(a),
        sanitized(a + seq!['.']) == sanitized(a),
        sanitized(Seq::empty()) == "Untitled"@,
{
    let none = Seq::<char>::empty();
    let no_words = Seq::<Seq<char>>::empty();
    lemma_no_words();
    lemma_words_at_separator(a, ' ', b);
    if whitespace(c) || forbidden_in_name(c) {
        lemma_words_at_separator(a, c, b);
        assert(collapsed_name(a + seq![c] + b) == collapsed_name(a + seq![' '] + b));
    }
    assert(a + seq![' ', ' '] + b == a + seq![' '] + (none + seq![' '] + b));
    lemma_words_at_separator(a, ' ', none + seq![' '] + b);
    lemma_words_at_separator(none, ' ', b);
    assert(no_words + words(b) == words(b));
    assert(collapsed_name(a + seq![' ', ' '] + b) == collapsed_name(a + seq![' '] + b));
    assert(none + seq![' '] + a == seq![' '] + a);
    lemma_words_at_separator(none, ' ', a);
    assert(no_words + words(a) == words(a));
    assert(collapsed_name(seq![' '] + a) == collapsed_name(a));
    assert(a + seq![' '] + none == a + seq![' ']);
    lemma_words_at_separator(a, ' ', none);
    assert(words(a) + no_words == words(a));
    assert(collapsed_name(a + seq![' ']) == collapsed_name(a));
    lemma_stop_at_start(a);
    lemma_stop_at_end(a);
    assert(a + seq!['.'] == a.push('.'));
    assert(join(words(none), " "@) == none);
    assert(collapsed_name(none) == none);
}

/// What a path is made of, whatever its parts are: its components are the parts
/// between slashes that are neither empty nor `.`, it descends only if the first
/// part is neither empty (unless it is the only one) nor `.` and no part is
/// `..`, and its file name is the last part if that is a name.
pub proof fn law_path_of_parts(parts: Seq<Seq<char>>)
    requires
        parts.len() > 0,
        forall|k: int| 0 <= k < parts.len() ==> !(#[trigger] parts[k]).contains('/'),
    ensures
        components(join(parts, "/"@)) == parts.filter(
            |part: Seq<char>| part != Seq::<char>::empty() && part != seq!['.'],
        ),
        descends_only(join(parts, "/"@)) <==> {
            &&& parts.len() == 1 || parts[0].len() > 0
            &&& parts[0] != seq!['.']
            &&& !parts.contains(seq!['.', '.'])
        },
        parts.last().len() > 0 && parts.last() != seq!['.'] && parts.last() != seq!['.', '.']
            ==> file_name(join(parts, "/"@)) == Some(parts.last()),
{
    reveal_strlit("/");
    reveal_strlit(".");
    reveal_strlit("..");
    assert("/"@ =~= seq!['/']);
    assert("."@ =~= seq!['.']);
    assert(".."@ =~= seq!['.', '.']);
    let path = join(parts, "/"@);
    law_joined_pieces_can_be_split(parts, '/');
    let keep = |part: Seq<char>| part.len() > 0 && part != "."@;
    let named = |part: Seq<char>| part != Seq::<char>::empty() && part != seq!['.'];
    assert forall|part: Seq<char>| #[trigger] keep(part) == named(part) by {
        assert(part.len() == 0 ==> part =~= Seq::<char>::empty());
    }
    assert(keep =~= named);
    assert(components(path) == parts.filter(keep));
    assert(path.len() > 0 && path[0] == '/' <==> parts.len() > 1 && parts[0].len() == 0) by {
        let first = parts[0];
        if parts.len() > 1 {
            assert(parts == seq![first] + parts.skip(1));
            law_join_of_both(seq![first], parts.skip(1), "/"@);
        }
        assert(first.len() > 0 ==> path[0] == first[0]);
        assert(first.len() > 0 ==> first.contains(first[0]));
    }
    if keep(parts.last()) && parts.last() != ".."@ {
        reveal(Seq::filter);
        assert(components(path) == parts.drop_last().filter(keep).push(parts.last()));
    }
}

/// The extension of a file name is what stands behind its last full stop, and
/// the stem what stands before it; a full stop that is the first character does
/// not count.
pub proof fn law_stem_and_extension(base: Seq<char>, suffix: Seq<char>)
    requires
        base.len() > 0,
        !base.contains('/'),
        !suffix.contains('/'),
        !suffix.contains('.'),
    ensures
        base != seq!['.'] || suffix.len() > 0 ==> {
            &&& stem(base + seq!['.'] + suffix) == base
            &&& extension(base + seq!['.'] + suffix) == seq!['.'] + suffix
        },
        base != seq!['.'] && !base.skip(1).contains('.') ==> {
            &&& stem(base) == base
            &&& extension(base) == Seq::<char>::empty()
        },
{
    let name = base + seq!['.'] + suffix;
    assert forall|i: int| 0 <= i < name.len() implies #[trigger] name[i] != '/' by {
        if i < base.len() {
            assert(base.contains(base[i]));
        } else if i > base.len() {
            assert(suffix.contains(suffix[i - base.len() - 1]));
        }
    }
    assert(!seq![name][0].contains('/'));
    law_path_of_parts(seq![name]);
    assert(!seq![base][0].contains('/'));
    law_path_of_parts(seq![base]);
    if base != seq!['.'] || suffix.len() > 0 {
        assert(name.len() >= 2);
        if name == seq!['.', '.'] {
            assert(base.len() == 1);
            assert(base[0] == name[0]);
            assert(base =~= seq!['.']);
        }
        assert forall|j: int| base.len() < j < name.len() implies name[j] != '.' by {
            assert(suffix.contains(suffix[j - base.len() - 1]));
        }
        assert(is_last_dot(name, base.len() as int));
        let at = extension_start(name);
        assert(is_last_dot(name, at));
        assert(at == base.len());
        assert(name.take(at) == base);
        assert(name.skip(at) == seq!['.'] + suffix);
    }
    if base != seq!['.'] && !base.skip(1).contains('.') {
        if base == seq!['.', '.'] {
            assert(base.skip(1)[0] == '.');
        }
        assert forall|i: int| !is_last_dot(base, i) by {
            if 0 < i < base.len() && base[i] == '.' {
                assert(base.skip(1)[i - 1] == '.');
            }
        }
        assert(base.take(base.len() as int) == base);
        assert(base.skip(base.len() as int) == Seq::<char>::empty());
    }
}

} // verus!
