//! The tags of a note.
use crate::patterns::{
    all_tags, begins_tag, continues_tag, find, first_groups, is_plain, is_search, is_tag_at,
    is_tag_match, regex_captures, tag_run, tags_before, MatchView, Matches, MatchesView, TAG_PATTERN,
};
use crate::text::{
    holds, lemma_trim_end_is_part, trim_end, trimmed_end, views, whitespace, CharClass,
};
use vstd::prelude::*;

verus! {

/// The items that are not empty, each where it appears first.
pub open spec fn first_appearances(items: Seq<Seq<char>>) -> Seq<Seq<char>>
    decreases items.len(),
{
    if items.len() == 0 {
        Seq::empty()
    } else {
        let before = first_appearances(items.drop_last());
        if items.last().len() == 0 || before.contains(items.last()) {
            before
        } else {
            before.push(items.last())
        }
    }
}

/// The tags of a text, as often as they appear: what group 1 of the tag
/// pattern matched, without slashes at the end.
pub open spec fn tag_appearances(matches: MatchesView) -> Seq<Seq<char>> {
    matches.found.map_values(
        |m: MatchView| trim_end(m.groups[1], CharClass::One('/')),
    )
}

/// The tags among the matches of the tag pattern, in order of first appearance.
pub fn tags_of(matches: &Matches) -> (res: Vec<String>)
    requires
        matches@.has_groups(1),
    ensures
        views(res@) == first_appearances(tag_appearances(matches@)),
{
    let ghost appearances = tag_appearances(matches@);
    let mut tags: Vec<String> = Vec::new();
    for i in 0..matches.found.len()
        invariant
            matches@.has_groups(1),
            appearances == tag_appearances(matches@),
            views(tags@) == first_appearances(appearances.take(i as int)),
    {
        assert(matches@.found[i as int] == matches.found@[i as int]@);
        assert(matches@.found[i as int].groups[1] == matches.found@[i as int].groups@[1]@);
        assert(appearances.take(i + 1).drop_last() == appearances.take(i as int));
        let tag = trimmed_end(matches.found[i].groups[1].as_str(), CharClass::One('/'));
        let ghost before = views(tags@);
        if !tag.as_str().is_empty() && !holds(&tags, &tag) {
            tags.push(tag);
            assert(views(tags@) == before.push(appearances[i as int]));
        }
    }
    assert(appearances.take(appearances.len() as int) == appearances);
    tags
}

/// A tag without the slashes at its end.
pub open spec fn trimmed_tag(tag: Seq<char>) -> Seq<char> {
    trim_end(tag, CharClass::One('/'))
}

/// The tags of a text, in order of first appearance.
pub open spec fn tags_in(text: Seq<char>) -> Seq<Seq<char>> {
    first_appearances(all_tags(text).map_values(|tag: Seq<char>| trimmed_tag(tag)))
}

/// What every tag of a note meets: it is not empty, begins with what a tag may
/// begin with and goes on with what it may go on with, holds neither white
/// space nor controls, and does not end with a slash.
pub open spec fn is_tag(tag: Seq<char>) -> bool {
    &&& tag.len() > 0
    &&& begins_tag(tag[0])
    &&& forall|i: int| 0 <= i < tag.len() ==> continues_tag(#[trigger] tag[i])
    &&& is_plain(tag)
    &&& tag.last() != '/'
}

/// Bear tags (`#tag`, possibly nested like `#work/projects`) as they appear in
/// the note text, in order of first appearance.
pub fn extract_tags(text: &str) -> (res: Vec<String>)
    ensures
        views(res@) == tags_in(text@),
        forall|i: int| 0 <= i < res@.len() ==> is_tag((#[trigger] res@[i])@),
        is_search(TAG_PATTERN@, text@, regex_captures(TAG_PATTERN@, text@)),
{
    let matches = find(TAG_PATTERN, text);
    let tags = tags_of(&matches);
    proof {
        let found = regex_captures(TAG_PATTERN@, text@);
        let items = all_tags(text@).map_values(|tag: Seq<char>| trimmed_tag(tag));
        assert forall|k: int| 0 <= k < found.len() implies tag_appearances(matches@)[k] == #[trigger] items[k] by {
            assert(is_tag_match(text@, found[k]));
            assert(all_tags(text@)[k] == first_groups(text@, found)[k]);
        }
        assert(tag_appearances(matches@) == items);
        law_tags_are_first_appearances(items);
        assert forall|i: int| 0 <= i < tags@.len() implies is_tag((#[trigger] tags@[i])@) by {
            assert(views(tags@)[i] == tags@[i]@);
            assert(first_appearances(items).contains(tags@[i]@));
            let k = choose|k: int| 0 <= k < items.len() && items[k] == tags@[i]@;
            assert(is_tag_match(text@, found[k]));
            assert(all_tags(text@)[k] == first_groups(text@, found)[k]);
            lemma_tag_text(text@, text@.len(), k);
            lemma_trimmed_tag(all_tags(text@)[k]);
            let end = lemma_trim_end_is_part(all_tags(text@)[k], CharClass::One('/'));
        }
    }
    tags
}

proof fn lemma_tag_run(s: Seq<char>)
    ensures
        forall|i: int| 0 <= i < tag_run(s).len() ==> continues_tag(#[trigger] tag_run(s)[i]),
        s.len() > 0 && continues_tag(s[0]) ==> tag_run(s).len() > 0 && tag_run(s)[0] == s[0],
    decreases s.len(),
{
    if s.len() > 0 && continues_tag(s[0]) {
        lemma_tag_run(s.drop_first());
        assert forall|i: int| 0 <= i < tag_run(s).len() implies continues_tag(#[trigger] tag_run(s)[i]) by {
            if i > 0 {
                assert(tag_run(s)[i] == tag_run(s.drop_first())[i - 1]);
            }
        }
    }
}

/// What the tags of a text are made of.
proof fn lemma_tag_text(text: Seq<char>, n: nat, k: int)
    requires
        n <= text.len(),
        0 <= k < tags_before(text, n).len(),
    ensures
        tags_before(text, n)[k].len() > 0,
        begins_tag(tags_before(text, n)[k][0]),
        forall|i: int|
            0 <= i < tags_before(text, n)[k].len() ==> continues_tag(#[trigger] tags_before(text, n)[k][i]),
    decreases n,
{
    let before = tags_before(text, (n - 1) as nat);
    if k < before.len() {
        lemma_tag_text(text, (n - 1) as nat, k);
        assert(tags_before(text, n)[k] == before[k]);
    } else {
        assert(text.skip(n as int)[0] == text[n as int]);
        lemma_tag_run(text.skip(n as int));
    }
}

proof fn lemma_trimmed_tag(tag: Seq<char>)
    requires
        tag.len() > 0,
        begins_tag(tag[0]),
    ensures
        trimmed_tag(tag).len() > 0,
        trimmed_tag(tag)[0] == tag[0],
    decreases tag.len(),
{
    if tag.last() == '/' {
        lemma_trimmed_tag(tag.drop_last());
    }
}

/// No tag of a text is lost: each, without slashes at its end, is among the
/// tags that are listed.
pub proof fn law_every_tag_is_kept(text: Seq<char>, k: int)
    requires
        0 <= k < all_tags(text).len(),
    ensures
        tags_in(text).contains(trimmed_tag(all_tags(text)[k])),
{
    let items = all_tags(text).map_values(|tag: Seq<char>| trimmed_tag(tag));
    law_tags_are_first_appearances(items);
    lemma_tag_text(text, text.len(), k);
    lemma_trimmed_tag(all_tags(text)[k]);
    assert(items[k] == trimmed_tag(all_tags(text)[k]));
    assert(items.contains(items[k]));
}

/// First appearances in one list followed by another: those in the first, then
/// those in the second that are not among them.
pub proof fn law_first_appearances_of_both(a: Seq<Seq<char>>, b: Seq<Seq<char>>)
    ensures
        first_appearances(a + b) == first_appearances(a) + first_appearances(b).filter(
            |t: Seq<char>| !first_appearances(a).contains(t),
        ),
    decreases b.len(),
{
    reveal(Seq::filter);
    let firsts = first_appearances(a);
    let is_new = |t: Seq<char>| !firsts.contains(t);
    if b.len() == 0 {
        assert(a + b == a);
        assert(first_appearances(b).filter(is_new) == Seq::<Seq<char>>::empty());
        assert(firsts + Seq::<Seq<char>>::empty() == firsts);
    } else {
        let head = b.drop_last();
        let last = b.last();
        let seconds = first_appearances(head);
        let both = first_appearances(a + head);
        law_first_appearances_of_both(a, head);
        assert((a + b).drop_last() == a + head);
        assert(both == firsts + seconds.filter(is_new));
        lemma_filter_contains(seconds, is_new, last);
        assert(both.contains(last) <==> firsts.contains(last) || seconds.filter(is_new).contains(last)) by {
            let news = seconds.filter(is_new);
            if firsts.contains(last) {
                let k = choose|k: int| 0 <= k < firsts.len() && firsts[k] == last;
                assert(both[k] == last);
            }
            if news.contains(last) {
                let k = choose|k: int| 0 <= k < news.len() && news[k] == last;
                assert(both[firsts.len() + k] == last);
            }
            if both.contains(last) {
                let k = choose|k: int| 0 <= k < both.len() && both[k] == last;
                if k < firsts.len() {
                    assert(firsts[k] == last);
                } else {
                    assert(news[k - firsts.len()] == last);
                }
            }
        }
        if last.len() > 0 && !seconds.contains(last) {
            let after = seconds.push(last);
            assert(after.drop_last() == seconds);
            if is_new(last) {
                assert(after.filter(is_new) == seconds.filter(is_new).push(last));
                assert(firsts + seconds.filter(is_new).push(last) == both.push(last));
            } else {
                assert(after.filter(is_new) == seconds.filter(is_new));
            }
        }
    }
}

proof fn lemma_filter_contains(items: Seq<Seq<char>>, keep: spec_fn(Seq<char>) -> bool, t: Seq<char>)
    ensures
        items.filter(keep).contains(t) <==> items.contains(t) && keep(t),
    decreases items.len(),
{
    reveal(Seq::filter);
    if items.len() > 0 {
        let head = items.drop_last();
        let kept = head.filter(keep);
        lemma_filter_contains(head, keep, t);
        assert(items == head.push(items.last()));
        assert(items.contains(t) <==> head.contains(t) || items.last() == t) by {
            if head.contains(t) {
                let k = choose|k: int| 0 <= k < head.len() && head[k] == t;
                assert(items[k] == t);
            }
            if items.last() == t {
                assert(items[items.len() - 1] == t);
            }
            if items.contains(t) {
                let k = choose|k: int| 0 <= k < items.len() && items[k] == t;
                assert(k < head.len() ==> head[k] == t);
            }
        }
        if keep(items.last()) {
            let all = kept.push(items.last());
            assert(all.contains(t) <==> kept.contains(t) || items.last() == t) by {
                if kept.contains(t) {
                    let k = choose|k: int| 0 <= k < kept.len() && kept[k] == t;
                    assert(all[k] == t);
                }
                if items.last() == t {
                    assert(all[kept.len() as int] == t);
                }
                if all.contains(t) {
                    let k = choose|k: int| 0 <= k < all.len() && all[k] == t;
                    assert(k < kept.len() ==> kept[k] == t);
                }
            }
        }
    }
}

proof fn lemma_run_stops(a: Seq<char>, b: Seq<char>)
    ensures
        tag_run(a + seq!['\n'] + b) == tag_run(a),
    decreases a.len(),
{
    let all = a + seq!['\n'] + b;
    if a.len() > 0 {
        assert(all[0] == a[0]);
        lemma_run_stops(a.drop_first(), b);
        assert(all.drop_first() == a.drop_first() + seq!['\n'] + b);
    } else {
        assert(all[0] == '\n');
    }
}

proof fn lemma_tags_of_first_line(a: Seq<char>, b: Seq<char>, n: nat)
    requires
        n <= a.len(),
    ensures
        tags_before(a + seq!['\n'] + b, n) == tags_before(a, n),
    decreases n,
{
    let all = a + seq!['\n'] + b;
    if n > 0 {
        let i = n - 1;
        lemma_tags_of_first_line(a, b, i as nat);
        assert(all[i] == a[i]);
        assert(i > 0 ==> all[i - 1] == a[i - 1]);
        if n < a.len() {
            assert(all[i + 1] == a[i + 1]);
        } else {
            assert(all[i + 1] == '\n');
        }
        assert(all.skip(n as int) == a.skip(n as int) + seq!['\n'] + b);
        lemma_run_stops(a.skip(n as int), b);
    }
}

proof fn lemma_tags_of_second_line(a: Seq<char>, b: Seq<char>, n: nat)
    requires
        n <= b.len(),
    ensures
        tags_before(a + seq!['\n'] + b, a.len() + 1 + n) == all_tags(a) + tags_before(b, n),
    decreases n,
{
    let all = a + seq!['\n'] + b;
    let at = a.len() as int + n;
    if n == 0 {
        lemma_tags_of_first_line(a, b, a.len());
        assert(all[a.len() as int] == '\n');
        assert(all_tags(a) + tags_before(b, 0) == all_tags(a));
    } else {
        let i = n - 1;
        lemma_tags_of_second_line(a, b, i as nat);
        assert(all[at] == b[i]);
        assert(n < b.len() ==> all[at + 1] == b[i + 1]);
        if i > 0 {
            assert(all[at - 1] == b[i - 1]);
        } else {
            assert(all[at - 1] == '\n');
        }
        assert(is_tag_at(all, at) == is_tag_at(b, i));
        assert(all.skip(at + 1) == b.skip(n as int));
        assert((a.len() + 1 + n - 1) as nat == a.len() + 1 + i);
        assert(all_tags(a) + tags_before(b, i as nat).push(tag_run(b.skip(n as int))) == (all_tags(a)
            + tags_before(b, i as nat)).push(tag_run(b.skip(n as int))));
    }
}

/// The tags of two texts with a line break between them are those of the first,
/// then those of the second that are not among them.
pub proof fn law_tags_of_joined_texts(a: Seq<char>, b: Seq<char>)
    ensures
        tags_in(a + "\n"@ + b) == tags_in(a) + tags_in(b).filter(|t: Seq<char>| !tags_in(a).contains(t)),
{
    reveal_strlit("\n");
    let all = a + seq!['\n'] + b;
    let trim = |tag: Seq<char>| trimmed_tag(tag);
    assert("\n"@ == seq!['\n']);
    lemma_tags_of_second_line(a, b, b.len());
    assert(all.len() == a.len() + 1 + b.len());
    assert((all_tags(a) + all_tags(b)).map_values(trim) == all_tags(a).map_values(trim) + all_tags(
        b,
    ).map_values(trim));
    law_first_appearances_of_both(all_tags(a).map_values(trim), all_tags(b).map_values(trim));
}

/// Whether `a` comes first in `items` before `b` does.
pub open spec fn appears_before(items: Seq<Seq<char>>, a: Seq<char>, b: Seq<char>) -> bool {
    exists|i: int|
        0 <= i < items.len() && #[trigger] items[i] == a && forall|j: int|
            0 <= j <= i ==> #[trigger] items[j] != b
}

/// Tags are listed once each, none is empty, none is left out, and they stand
/// in the order in which they appear first.
pub proof fn law_tags_are_first_appearances(items: Seq<Seq<char>>)
    ensures
        forall|t: Seq<char>|
            #[trigger] first_appearances(items).contains(t) <==> t.len() > 0 && items.contains(t),
        forall|i: int, j: int|
            0 <= i < j < first_appearances(items).len() ==> #[trigger] first_appearances(items)[i]
                != #[trigger] first_appearances(items)[j],
        forall|i: int, j: int|
            0 <= i < j < first_appearances(items).len() ==> appears_before(
                items,
                #[trigger] first_appearances(items)[i],
                #[trigger] first_appearances(items)[j],
            ),
    decreases items.len(),
{
    let tags = first_appearances(items);
    if items.len() > 0 {
        let head = items.drop_last();
        let before = first_appearances(head);
        let last = items.last();
        law_tags_are_first_appearances(head);
        assert forall|t: Seq<char>| #[trigger] tags.contains(t) <==> t.len() > 0 && items.contains(t) by {
            assert(before.contains(t) <==> t.len() > 0 && head.contains(t));
            if items.contains(t) {
                let i = choose|i: int| 0 <= i < items.len() && items[i] == t;
                if i < head.len() {
                    assert(head[i] == t);
                }
            }
            if head.contains(t) {
                let i = choose|i: int| 0 <= i < head.len() && head[i] == t;
                assert(items[i] == t);
            }
            if before.contains(t) {
                let i = choose|i: int| 0 <= i < before.len() && before[i] == t;
                assert(tags[i] == t);
            }
            if tags.contains(t) {
                let i = choose|i: int| 0 <= i < tags.len() && tags[i] == t;
                if i < before.len() {
                    assert(before[i] == t);
                } else {
                    assert(items[items.len() - 1] == t);
                }
            }
            if t == last && t.len() > 0 && !before.contains(t) {
                assert(tags[before.len() as int] == t);
            }
        }
        assert forall|i: int, j: int| 0 <= i < j < tags.len() implies #[trigger] tags[i] != #[trigger] tags[j]
            && appears_before(items, tags[i], tags[j]) by {
            assert(before[i] == tags[i]);
            assert(before.contains(tags[i]));
            if j < before.len() {
                assert(before[j] == tags[j]);
                let k = choose|k: int|
                    0 <= k < head.len() && #[trigger] head[k] == before[i] && forall|l: int|
                        0 <= l <= k ==> #[trigger] head[l] != before[j];
                assert(items[k] == tags[i]);
                assert forall|l: int| 0 <= l <= k implies #[trigger] items[l] != tags[j] by {
                    assert(head[l] == items[l]);
                }
            } else {
                assert(tags[j] == last);
                let k = choose|k: int| 0 <= k < head.len() && head[k] == tags[i];
                assert(items[k] == tags[i]);
                assert forall|l: int| 0 <= l <= k implies #[trigger] items[l] != last by {
                    assert(head[l] == items[l]);
                    assert(head.contains(head[l]));
                }
            }
        }
    }
}

/// Which ASCII characters a tag may begin with and go on with: letters, digits
/// and `_`, and then also `-` and `/`.
pub proof fn law_ascii_characters_of_tags(c: char)
    requires
        (c as u32) < 128,
    ensures
        begins_tag(c) <==> {
            let n = c as u32;
            48 <= n <= 57 || 65 <= n <= 90 || n == 95 || 97 <= n <= 122
        },
        continues_tag(c) <==> begins_tag(c) || c as u32 == 45 || c as u32 == 47,
{
}

/// Whether a tag stands in a text, with its `#` at `i`: at the start of the text
/// or behind white space or `(`. It goes as far as there are characters of
/// tags, up to `end`, but for slashes at its end.
pub open spec fn tag_stands_between(text: Seq<char>, tag: Seq<char>, i: int, end: int) -> bool {
    &&& 0 <= i && i + 1 + tag.len() <= end <= text.len()
    &&& text[i] == '#'
    &&& i > 0 ==> whitespace(text[i - 1]) || text[i - 1] == '('
    &&& tag.len() > 0
    &&& text.subrange(i + 1, i + 1 + tag.len()) == tag
    &&& begins_tag(tag[0])
    &&& tag.last() != '/'
    &&& forall|k: int| 0 <= k < tag.len() ==> continues_tag(#[trigger] tag[k])
    &&& forall|k: int| i + 1 + tag.len() <= k < end ==> #[trigger] text[k] == '/'
    &&& end < text.len() ==> !continues_tag(text[end])
}

/// Whether a tag stands in a text, with its `#` at `i`.
pub open spec fn tag_stands_at(text: Seq<char>, tag: Seq<char>, i: int) -> bool {
    exists|end: int| #[trigger] tag_stands_between(text, tag, i, end)
}

proof fn lemma_tag_run_span(s: Seq<char>) -> (end: int)
    ensures
        0 <= end <= s.len(),
        tag_run(s) == s.take(end),
        forall|k: int| 0 <= k < end ==> continues_tag(#[trigger] s[k]),
        end < s.len() ==> !continues_tag(s[end]),
    decreases s.len(),
{
    if s.len() > 0 && continues_tag(s[0]) {
        let end = lemma_tag_run_span(s.drop_first());
        assert(tag_run(s) =~= s.take(end + 1));
        assert forall|k: int| 0 <= k < end + 1 implies continues_tag(#[trigger] s[k]) by {
            if k > 0 {
                assert(s[k] == s.drop_first()[k - 1]);
            }
        }
        end + 1
    } else {
        assert(tag_run(s) =~= s.take(0));
        0
    }
}

/// Where a tag stands is where the search finds it.
proof fn lemma_tag_stands_where_found(text: Seq<char>, tag: Seq<char>, i: int)
    ensures
        tag_stands_at(text, tag, i) <==> is_tag_at(text, i) && trimmed_tag(tag_run(text.skip(i + 1))) == tag,
{
    if is_tag_at(text, i) {
        let rest = text.skip(i + 1);
        let end = lemma_tag_run_span(rest);
        let run = tag_run(rest);
        let cut = lemma_trim_end_is_part(run, CharClass::One('/'));
        assert(rest[0] == text[i + 1]);
        if end == 0 {
            assert(continues_tag(rest[0]));
        }
        assert(run[0] == rest[0]);
        lemma_trimmed_tag(run);
        let found = trimmed_tag(run);
        assert forall|k: int| 0 <= k < found.len() implies continues_tag(#[trigger] found[k]) by {
            assert(found[k] == rest[k]);
        }
        assert forall|k: int| i + 1 + found.len() <= k < i + 1 + end implies #[trigger] text[k] == '/' by {
            assert(run[k - i - 1] == text[k]);
        }
        assert(text.subrange(i + 1, i + 1 + found.len()) =~= found);
        assert(i + 1 + end < text.len() ==> rest[end] == text[i + 1 + end]);
        assert(tag_stands_between(text, found, i, i + 1 + end));
        if tag_stands_at(text, tag, i) {
            let other = choose|other: int| #[trigger] tag_stands_between(text, tag, i, other);
            lemma_same_tag(text, tag, other, found, i + 1 + end, i);
        }
    } else if tag_stands_at(text, tag, i) {
        let end = choose|end: int| #[trigger] tag_stands_between(text, tag, i, end);
        assert(text.subrange(i + 1, i + 1 + tag.len())[0] == text[i + 1]);
    }
}

proof fn lemma_tag_character(text: Seq<char>, tag: Seq<char>, i: int, end: int, k: int)
    requires
        tag_stands_between(text, tag, i, end),
        i < k < end,
    ensures
        continues_tag(text[k]),
        k < i + 1 + tag.len() ==> text[k] == tag[k - i - 1],
{
    if k < i + 1 + tag.len() {
        assert(text.subrange(i + 1, i + 1 + tag.len())[k - i - 1] == text[k]);
    }
}

/// At most one tag stands at a place.
proof fn lemma_same_tag(text: Seq<char>, a: Seq<char>, a_end: int, b: Seq<char>, b_end: int, i: int)
    requires
        tag_stands_between(text, a, i, a_end),
        tag_stands_between(text, b, i, b_end),
    ensures
        a == b,
{
    if a_end < b_end {
        lemma_tag_character(text, b, i, b_end, a_end);
    } else if b_end < a_end {
        lemma_tag_character(text, a, i, a_end, b_end);
    }
    if a.len() < b.len() {
        lemma_tag_character(text, b, i, b_end, i + b.len());
    } else if b.len() < a.len() {
        lemma_tag_character(text, a, i, a_end, i + a.len());
    }
    assert(a =~= b);
}

/// How many tags come before a place is the number of the tag at that place.
proof fn lemma_tag_number(text: Seq<char>, n: nat, i: int)
    requires
        0 <= i < n <= text.len(),
        is_tag_at(text, i),
    ensures
        tags_before(text, i as nat).len() < tags_before(text, n).len(),
        tags_before(text, n)[tags_before(text, i as nat).len() as int] == tag_run(text.skip(i + 1)),
    decreases n,
{
    if i < n - 1 {
        lemma_tag_number(text, (n - 1) as nat, i);
    }
}

proof fn lemma_fewer_tags_before(text: Seq<char>, i: nat, j: nat)
    requires
        i <= j,
    ensures
        tags_before(text, i).len() <= tags_before(text, j).len(),
    decreases j,
{
    if i < j {
        lemma_fewer_tags_before(text, i, (j - 1) as nat);
    }
}

/// Where a tag with a number stands.
proof fn lemma_tag_place(text: Seq<char>, n: nat, k: int) -> (i: int)
    requires
        n <= text.len(),
        0 <= k < tags_before(text, n).len(),
    ensures
        0 <= i < n,
        is_tag_at(text, i),
        tags_before(text, i as nat).len() == k,
        tags_before(text, n)[k] == tag_run(text.skip(i + 1)),
    decreases n,
{
    let before = tags_before(text, (n - 1) as nat);
    if k < before.len() {
        lemma_tag_place(text, (n - 1) as nat, k)
    } else {
        n - 1
    }
}

/// The tags of a text are those that stand in it: all of them and no others,
/// each once.
pub proof fn law_tags_are_those_in_the_text(text: Seq<char>, tag: Seq<char>)
    ensures
        tags_in(text).contains(tag) <==> exists|i: int| #[trigger] tag_stands_at(text, tag, i),
        tags_in(text).no_duplicates(),
{
    let items = all_tags(text).map_values(|tag: Seq<char>| trimmed_tag(tag));
    law_tags_are_first_appearances(items);
    if tags_in(text).contains(tag) {
        let k = choose|k: int| 0 <= k < items.len() && items[k] == tag;
        let i = lemma_tag_place(text, text.len(), k);
        lemma_tag_stands_where_found(text, tag, i);
        assert(tag_stands_at(text, tag, i));
    }
    if exists|i: int| #[trigger] tag_stands_at(text, tag, i) {
        let i = choose|i: int| #[trigger] tag_stands_at(text, tag, i);
        let end = choose|end: int| #[trigger] tag_stands_between(text, tag, i, end);
        lemma_tag_stands_where_found(text, tag, i);
        lemma_tag_number(text, text.len(), i);
        let k = tags_before(text, i as nat).len() as int;
        assert(items[k] == tag);
        assert(items.contains(tag));
    }
}

/// The tags of a text are listed in the order of their first appearance: an
/// earlier one stands somewhere in the text where a later one has not come yet.
pub proof fn law_tags_are_in_order_of_appearance(text: Seq<char>, a: int, b: int)
    requires
        0 <= a < b < tags_in(text).len(),
    ensures
        exists|i: int|
            #[trigger] tag_stands_at(text, tags_in(text)[a], i) && forall|j: int|
                #[trigger] tag_stands_at(text, tags_in(text)[b], j) ==> i < j,
{
    let items = all_tags(text).map_values(|tag: Seq<char>| trimmed_tag(tag));
    let first = tags_in(text)[a];
    let second = tags_in(text)[b];
    law_tags_are_first_appearances(items);
    assert(appears_before(items, first, second));
    let k = choose|k: int|
        0 <= k < items.len() && #[trigger] items[k] == first && forall|l: int|
            0 <= l <= k ==> #[trigger] items[l] != second;
    let i = lemma_tag_place(text, text.len(), k);
    lemma_tag_stands_where_found(text, first, i);
    assert forall|j: int| #[trigger] tag_stands_at(text, second, j) implies i < j by {
        let end = choose|end: int| #[trigger] tag_stands_between(text, second, j, end);
        lemma_tag_stands_where_found(text, second, j);
        lemma_tag_number(text, text.len(), j);
        let l = tags_before(text, j as nat).len() as int;
        assert(items[l] == second);
        if j <= i {
            lemma_fewer_tags_before(text, j as nat, i as nat);
        }
    }
    assert(tag_stands_at(text, first, i));
}

} // verus!
