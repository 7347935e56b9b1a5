//! Finding the parts of a note's text that the export acts on.
//!
//! The searches are done by the `regex` crate, which answers in byte offsets;
//! this module turns those offsets into pieces of text.
use crate::text::{control, views, whitespace};
use regex::Regex;
use vstd::prelude::*;
use vstd::utf8::*;

verus! {

/// A Bear tag such as `#tag` or `#work/projects`; group 1 is the tag.
pub const TAG_PATTERN: &'static str = r"(?:^|[\s(])#([\p{L}\p{N}_][\p{L}\p{N}\p{M}_/-]*)";

/// An attachment as Bear 1.x embeds it, `[image:…]` or `[file:…]`; group 1 is
/// the kind and group 2 the target.
pub const BEAR_TOKEN_PATTERN: &'static str = r"\[(image|file):([^\]\n]+)\]";

/// A Markdown link or image; group 1 is the `!` of an image, group 2 the label
/// and group 3 the target.
pub const MARKDOWN_LINK_PATTERN: &'static str = r"(!?)\[([^\]\n]*)\]\(([^)\n]+)\)";

/// Whether `pattern` is one of those that notes are searched for.
pub open spec fn is_note_pattern(pattern: Seq<char>) -> bool {
    pattern == TAG_PATTERN@ || pattern == BEAR_TOKEN_PATTERN@ || pattern == MARKDOWN_LINK_PATTERN@
}

/// What `Regex::captures_iter` yields for a pattern on a text: for each match,
/// the byte offsets of the whole match and then of each group.
pub uninterp spec fn regex_captures(pattern: Seq<char>, text: Seq<char>) -> Seq<Seq<(int, int)>>;

/// A pair of offsets as mathematical integers.
pub open spec fn offsets_of(group: (usize, usize)) -> (int, int) {
    (group.0 as int, group.1 as int)
}

/// The offsets as mathematical integers.
pub open spec fn offsets(captures: Seq<Vec<(usize, usize)>>) -> Seq<Seq<(int, int)>> {
    captures.map_values(
        |groups: Vec<(usize, usize)>| groups@.map_values(|g: (usize, usize)| offsets_of(g)),
    )
}

/// A stretch of bytes that begins and ends between two characters.
pub open spec fn is_span(bytes: Seq<u8>, span: (int, int)) -> bool {
    &&& 0 <= span.0 <= span.1 <= bytes.len()
    &&& is_char_boundary(bytes, span.0)
    &&& is_char_boundary(bytes, span.1)
}

/// Matches that lie one behind the other, made of stretches of the text.
pub open spec fn well_placed(captures: Seq<Seq<(int, int)>>, bytes: Seq<u8>) -> bool {
    &&& forall|k: int| 0 <= k < captures.len() ==> (#[trigger] captures[k]).len() > 0
    &&& forall|k: int, g: int|
        0 <= k < captures.len() && 0 <= g < captures[k].len() ==> is_span(
            bytes,
            #[trigger] captures[k][g],
        )
    &&& forall|j: int, k: int|
        0 <= j < k < captures.len() ==> (#[trigger] captures[j])[0].1 <= (#[trigger] captures[k])[0].0
}

/// The part of `text` between two byte offsets.
pub open spec fn slice(text: Seq<char>, start: int, end: int) -> Seq<char> {
    decode_utf8(encode_utf8(text).subrange(start, end))
}

/// A Bear token: `[`, then `image` or `file`, `:`, a target that is not empty
/// and has neither `]` nor a line break, and `]`.
pub open spec fn is_token(bytes: Seq<u8>, m: Seq<(int, int)>) -> bool {
    &&& m.len() == 3
    &&& 0 <= m[0].0 < m[1].0 <= m[1].1 < m[2].0 < m[2].1 < m[0].1 <= bytes.len()
    &&& m[1].0 == m[0].0 + 1
    &&& m[2].0 == m[1].1 + 1
    &&& m[0].1 == m[2].1 + 1
    &&& bytes[m[0].0] == '[' as u8
    &&& {
        ||| bytes.subrange(m[1].0, m[1].1) == encode_utf8("image"@)
        ||| bytes.subrange(m[1].0, m[1].1) == encode_utf8("file"@)
    }
    &&& bytes[m[1].1] == ':' as u8
    &&& forall|i: int|
        m[2].0 <= i < m[2].1 ==> #[trigger] bytes[i] != ']' as u8 && bytes[i] != '\n' as u8
    &&& bytes[m[2].1] == ']' as u8
}

/// A Markdown link or image: perhaps `!`, then `[`, a label that has neither
/// `]` nor a line break, `](`, a target that is not empty and has neither `)`
/// nor a line break, and `)`.
pub open spec fn is_link(bytes: Seq<u8>, m: Seq<(int, int)>) -> bool {
    &&& m.len() == 4
    &&& 0 <= m[0].0 == m[1].0 <= m[1].1 < m[2].0 <= m[2].1 < m[3].0 < m[3].1 < m[0].1 <= bytes.len()
    &&& m[1].1 == m[1].0 || (m[1].1 == m[1].0 + 1 && bytes[m[1].0] == '!' as u8)
    &&& m[2].0 == m[1].1 + 1
    &&& m[3].0 == m[2].1 + 2
    &&& m[0].1 == m[3].1 + 1
    &&& bytes[m[1].1] == '[' as u8
    &&& forall|i: int|
        m[2].0 <= i < m[2].1 ==> #[trigger] bytes[i] != ']' as u8 && bytes[i] != '\n' as u8
    &&& bytes[m[2].1] == ']' as u8
    &&& bytes[m[2].1 + 1] == '(' as u8
    &&& forall|i: int|
        m[3].0 <= i < m[3].1 ==> #[trigger] bytes[i] != ')' as u8 && bytes[i] != '\n' as u8
    &&& bytes[m[3].1] == ')' as u8
}

/// Whether the matches are those of a search from left to right: each is one,
/// and wherever one begins, it begins inside one that was found.
pub open spec fn finds_all(
    captures: Seq<Seq<(int, int)>>,
    is_match: spec_fn(Seq<(int, int)>) -> bool,
) -> bool {
    &&& forall|k: int| 0 <= k < captures.len() ==> is_match(#[trigger] captures[k])
    &&& forall|m: Seq<(int, int)>| #[trigger] is_match(m) ==> is_covered(captures, m[0].0)
}

/// Whether an offset lies inside one of the matches.
#[verifier::opaque]
pub open spec fn is_covered(captures: Seq<Seq<(int, int)>>, offset: int) -> bool {
    exists|k: int| 0 <= k < captures.len() && (#[trigger] captures[k])[0].0 <= offset < captures[k][0].1
}

/// The letters and numbers of Unicode, as a class of the tag pattern.
pub const LETTER_OR_NUMBER_CLASS: &'static str = r"[\p{L}\p{N}]";

/// The marks of Unicode, as a class of the tag pattern.
pub const MARK_CLASS: &'static str = r"\p{M}";

/// Whether a class, as a regular expression of the `regex` crate, matches a
/// text of just this character.
pub uninterp spec fn regex_class_holds(class: Seq<char>, c: char) -> bool;

/// Whether a tag may begin with `c`: a letter, a number or `_`.
pub open spec fn begins_tag(c: char) -> bool {
    if c <= '\u{7f}' {
        '0' <= c <= '9' || 'A' <= c <= 'Z' || 'a' <= c <= 'z' || c == '_'
    } else {
        regex_class_holds(LETTER_OR_NUMBER_CLASS@, c)
    }
}

/// Whether a tag may go on with `c`: what it may begin with, a mark, `/` or `-`.
pub open spec fn continues_tag(c: char) -> bool {
    ||| begins_tag(c)
    ||| c == '/'
    ||| c == '-'
    ||| c > '\u{7f}' && regex_class_holds(MARK_CLASS@, c)
}

/// The characters at the start of `s` that a tag may go on with.
pub open spec fn tag_run(s: Seq<char>) -> Seq<char>
    decreases s.len(),
{
    if s.len() > 0 && continues_tag(s[0]) {
        seq![s[0]] + tag_run(s.drop_first())
    } else {
        Seq::empty()
    }
}

/// Whether the `#` of a tag is at `i`: at the start of the text or behind white
/// space or `(`, and before a character that a tag may begin with.
pub open spec fn is_tag_at(text: Seq<char>, i: int) -> bool {
    &&& 0 <= i < text.len() - 1
    &&& text[i] == '#'
    &&& begins_tag(text[i + 1])
    &&& i == 0 || whitespace(text[i - 1]) || text[i - 1] == '('
}

/// The tags whose `#` is among the first `n` characters of a text.
pub open spec fn tags_before(text: Seq<char>, n: nat) -> Seq<Seq<char>>
    decreases n,
{
    if n == 0 {
        Seq::empty()
    } else {
        let before = tags_before(text, (n - 1) as nat);
        if is_tag_at(text, n - 1) {
            before.push(tag_run(text.skip(n as int)))
        } else {
            before
        }
    }
}

/// The tags of a text, as often as they appear.
pub open spec fn all_tags(text: Seq<char>) -> Seq<Seq<char>> {
    tags_before(text, text.len())
}

/// What group 1 of each match holds.
pub open spec fn first_groups(text: Seq<char>, captures: Seq<Seq<(int, int)>>) -> Seq<Seq<char>> {
    captures.map_values(|m: Seq<(int, int)>| slice(text, m[1].0, m[1].1))
}

/// What every match of the tag pattern meets: it has one group, in which there
/// are neither white space nor controls.
pub open spec fn is_tag_match(text: Seq<char>, m: Seq<(int, int)>) -> bool {
    &&& m.len() == 2
    &&& is_plain(slice(text, m[1].0, m[1].1))
}

/// Whether a text has neither white space nor controls.
pub open spec fn is_plain(s: Seq<char>) -> bool {
    forall|i: int| 0 <= i < s.len() ==> !whitespace(#[trigger] s[i]) && !control(s[i])
}

/// Whether the matches are such as a search of `text` for `pattern` has.
pub open spec fn is_search(pattern: Seq<char>, text: Seq<char>, captures: Seq<Seq<(int, int)>>) -> bool {
    let bytes = encode_utf8(text);
    &&& well_placed(captures, bytes)
    &&& pattern == BEAR_TOKEN_PATTERN@ ==> finds_all(
        captures,
        |m: Seq<(int, int)>| is_token(bytes, m),
    )
    &&& pattern == MARKDOWN_LINK_PATTERN@ ==> finds_all(
        captures,
        |m: Seq<(int, int)>| is_link(bytes, m),
    )
    &&& pattern == TAG_PATTERN@ ==> {
        &&& forall|k: int| 0 <= k < captures.len() ==> is_tag_match(text, #[trigger] captures[k])
        &&& first_groups(text, captures) == all_tags(text)
    }
}

/// `Regex::captures_iter` of the `regex` crate, on the regular expression that
/// `Regex::new` makes of `pattern`, which is valid for each of the patterns
/// above. The search goes from left to right: the matches do not overlap, come
/// in the order in which they stand in the text, and no match is passed over.
/// Every offset lies between two characters, every group of these patterns
/// takes part in every match, and what the groups hold is what the pattern
/// says. Which characters beyond ASCII are letters, numbers or marks is left
/// to the crate's Unicode tables; white space and controls are none of these.
/// So no tag holds what has to stand before the `#` of another, and wherever a
/// tag can begin, one is found.
#[verifier::external_body]
fn captures(pattern: &str, text: &str) -> (res: Vec<Vec<(usize, usize)>>)
    requires
        is_note_pattern(pattern@),
    ensures
        offsets(res@) == regex_captures(pattern@, text@),
        is_search(pattern@, text@, offsets(res@)),
        pattern@ == TAG_PATTERN@ ==> forall|k: int, i: int|
            0 <= k < res@.len() && 0 <= i < first_groups(text@, offsets(res@))[k].len() ==> {
                let c = #[trigger] first_groups(text@, offsets(res@))[k][i];
                ||| c <= '\u{7f}'
                ||| regex_class_holds(LETTER_OR_NUMBER_CLASS@, c)
                ||| regex_class_holds(MARK_CLASS@, c)
            },
{
    Regex::new(pattern)
        .unwrap()
        .captures_iter(text)
        .map(|found| found.iter().map(|group| group.unwrap()).map(|m| (m.start(), m.end())).collect())
        .collect()
}

proof fn lemma_boundary_in_prefix(bytes: Seq<u8>, start: int, end: int)
    requires
        valid_utf8(bytes),
        is_span(bytes, (start, end)),
    ensures
        valid_utf8(bytes.subrange(0, end)),
        is_char_boundary(bytes.subrange(0, end), start),
{
    let head = bytes.subrange(0, end);
    valid_utf8_split(bytes, end);
    if start == end {
        is_char_boundary_start_end_of_seq(head);
        assert(head.len() == start);
    } else {
        is_char_boundary_iff_not_is_continuation_byte(bytes, start);
        is_char_boundary_iff_not_is_continuation_byte(head, start);
        assert(head[start] == bytes[start]);
    }
}

/// The part of `text` between two byte offsets.
fn sliced(text: &str, start: usize, end: usize) -> (res: String)
    requires
        is_span(encode_utf8(text@), (start as int, end as int)),
    ensures
        res@ == slice(text@, start as int, end as int),
{
    let ghost bytes = encode_utf8(text@);
    proof {
        encode_utf8_valid_utf8(text@);
        lemma_boundary_in_prefix(bytes, start as int, end as int);
    }
    let (head, _) = text.split_at(end);
    let (_, middle) = head.split_at(start);
    proof {
        assert(encode_utf8(middle@) == bytes.subrange(start as int, end as int));
        encode_utf8_decode_utf8(middle@);
    }
    middle.to_owned()
}

/// One match of a pattern in a text.
pub struct TextMatch {
    /// The text between the previous match, or the start, and this one.
    pub before: String,
    /// The whole match, then what each group of the pattern matched.
    pub groups: Vec<String>,
}

/// A text taken apart at the matches of a pattern.
pub struct Matches {
    /// The matches, in the order in which they stand in the text.
    pub found: Vec<TextMatch>,
    /// The text behind the last match.
    pub rest: String,
}

/// What a [`TextMatch`] holds.
pub struct MatchView {
    pub before: Seq<char>,
    pub groups: Seq<Seq<char>>,
}

/// What [`Matches`] hold.
pub struct MatchesView {
    pub found: Seq<MatchView>,
    pub rest: Seq<char>,
}

impl View for TextMatch {
    type V = MatchView;

    open spec fn view(&self) -> MatchView {
        MatchView { before: self.before@, groups: views(self.groups@) }
    }
}

impl View for Matches {
    type V = MatchesView;

    open spec fn view(&self) -> MatchesView {
        MatchesView { found: self.found@.map_values(|m: TextMatch| m@), rest: self.rest@ }
    }
}

impl MatchesView {
    /// Whether every match comes with `groups` groups besides the whole match.
    pub open spec fn has_groups(self, groups: nat) -> bool {
        forall|k: int| 0 <= k < self.found.len() ==> (#[trigger] self.found[k]).groups.len() == groups + 1
    }

    /// The whole matches.
    pub open spec fn wholes(self) -> Seq<Seq<char>> {
        self.found.map_values(|m: MatchView| m.groups[0])
    }

    /// The text with the `k`-th match replaced by `replacements[k]`.
    pub open spec fn replaced(self, replacements: Seq<Seq<char>>) -> Seq<char> {
        replaced_matches(self.found, replacements) + self.rest
    }
}

/// The text up to the end of the last match, with the `k`-th match replaced by
/// `replacements[k]`.
pub open spec fn replaced_matches(found: Seq<MatchView>, replacements: Seq<Seq<char>>) -> Seq<char>
    decreases found.len(),
{
    if found.len() == 0 {
        Seq::empty()
    } else {
        replaced_matches(found.drop_last(), replacements) + found.last().before
            + replacements[found.len() - 1]
    }
}

/// Where the `k`-th of the matches ends, and the text begins for `k` = -1.
pub open spec fn end_of(captures: Seq<Seq<(int, int)>>, k: int) -> int {
    if k < 0 {
        0
    } else {
        captures[k][0].1
    }
}

/// The `k`-th match: the text since the previous match, and the groups.
pub open spec fn match_at(text: Seq<char>, captures: Seq<Seq<(int, int)>>, k: int) -> MatchView {
    MatchView {
        before: slice(text, end_of(captures, k - 1), captures[k][0].0),
        groups: captures[k].map_values(|span: (int, int)| slice(text, span.0, span.1)),
    }
}

/// The text taken apart at the given matches.
pub open spec fn taken_apart(text: Seq<char>, captures: Seq<Seq<(int, int)>>) -> MatchesView {
    MatchesView {
        found: Seq::new(captures.len(), |k: int| match_at(text, captures, k)),
        rest: slice(text, end_of(captures, captures.len() - 1), encode_utf8(text).len() as int),
    }
}

/// The text taken apart at the matches of one of the patterns.
pub open spec fn matches_of(pattern: Seq<char>, text: Seq<char>) -> MatchesView {
    taken_apart(text, regex_captures(pattern, text))
}

/// Takes the text apart at the given matches.
pub fn take_apart(text: &str, captures: &Vec<Vec<(usize, usize)>>) -> (res: Matches)
    requires
        well_placed(offsets(captures@), encode_utf8(text@)),
    ensures
        res@ == taken_apart(text@, offsets(captures@)),
{
    let ghost bytes = encode_utf8(text@);
    let ghost spans = offsets(captures@);
    let ghost whole = taken_apart(text@, spans);
    proof {
        encode_utf8_valid_utf8(text@);
        is_char_boundary_start_end_of_seq(bytes);
    }
    let mut found: Vec<TextMatch> = Vec::new();
    let mut end: usize = 0;
    for k in 0..captures.len()
        invariant
            spans == offsets(captures@),
            bytes == encode_utf8(text@),
            whole == taken_apart(text@, spans),
            well_placed(spans, bytes),
            end <= bytes.len(),
            is_char_boundary(bytes, end as int),
            end == end_of(spans, k - 1),
            found@.len() == k,
            forall|j: int| 0 <= j < k ==> (#[trigger] found@[j])@ == whole.found[j],
    {
        assert(spans[k as int] == captures@[k as int]@.map_values(
            |g: (usize, usize)| offsets_of(g),
        ));
        let mut pieces: Vec<String> = Vec::new();
        let count: usize = captures[k].len();
        for g in 0..count
            invariant
                k < captures@.len(),
                count == captures@[k as int]@.len(),
                spans == offsets(captures@),
                spans[k as int] == captures@[k as int]@.map_values(
            |g: (usize, usize)| offsets_of(g),
        ),
                bytes == encode_utf8(text@),
                well_placed(spans, bytes),
                pieces@.len() == g,
                forall|j: int|
                    0 <= j < g ==> (#[trigger] pieces@[j])@ == slice(
                        text@,
                        spans[k as int][j].0,
                        spans[k as int][j].1,
                    ),
        {
            assert(is_span(bytes, spans[k as int][g as int]));
            let span: (usize, usize) = captures[k][g];
            pieces.push(sliced(text, span.0, span.1));
        }
        assert(is_span(bytes, spans[k as int][0]));
        assert(k > 0 ==> spans[k - 1][0].1 <= spans[k as int][0].0);
        let whole_match: (usize, usize) = captures[k][0];
        let before = sliced(text, end, whole_match.0);
        assert(views(pieces@) == whole.found[k as int].groups);
        found.push(TextMatch { before, groups: pieces });
        assert(found@[k as int]@ == whole.found[k as int]);
        end = whole_match.1;
    }
    let rest = sliced(text, end, text.as_bytes().len());
    let matches = Matches { found, rest };
    assert(matches@.found == whole.found);
    matches
}

/// Searches `text` for one of the patterns.
pub fn find(pattern: &str, text: &str) -> (res: Matches)
    requires
        is_note_pattern(pattern@),
    ensures
        res@ == matches_of(pattern@, text@),
        is_search(pattern@, text@, regex_captures(pattern@, text@)),
        pattern@ == TAG_PATTERN@ ==> res@.has_groups(1),
        pattern@ == BEAR_TOKEN_PATTERN@ ==> res@.has_groups(2),
        pattern@ == MARKDOWN_LINK_PATTERN@ ==> res@.has_groups(3),
{
    let spans = captures(pattern, text);
    let matches = take_apart(text, &spans);
    proof {
        let found = matches@.found;
        let bytes = encode_utf8(text@);
        assert forall|k: int| 0 <= k < found.len() implies {
            &&& pattern@ == TAG_PATTERN@ ==> (#[trigger] found[k]).groups.len() == 2
            &&& pattern@ == BEAR_TOKEN_PATTERN@ ==> found[k].groups.len() == 3
            &&& pattern@ == MARKDOWN_LINK_PATTERN@ ==> found[k].groups.len() == 4
        } by {
            let m = offsets(spans@)[k];
            assert(found[k].groups.len() == m.len());
            assert(pattern@ == TAG_PATTERN@ ==> is_tag_match(text@, m));
            assert(pattern@ == BEAR_TOKEN_PATTERN@ ==> is_token(bytes, m));
            assert(pattern@ == MARKDOWN_LINK_PATTERN@ ==> is_link(bytes, m));
        }
    }
    matches
}

/// A Bear token is determined by where it begins.
proof fn lemma_token_determined(bytes: Seq<u8>, a: Seq<(int, int)>, b: Seq<(int, int)>)
    requires
        is_token(bytes, a),
        is_token(bytes, b),
        a[0].0 == b[0].0,
    ensures
        a == b,
{
    reveal_strlit("image");
    reveal_strlit("file");
    is_ascii_chars_encode_utf8("image"@);
    is_ascii_chars_encode_utf8("file"@);
    assert(bytes.subrange(a[1].0, a[1].1)[0] == bytes[a[1].0]);
    assert(bytes.subrange(b[1].0, b[1].1)[0] == bytes[b[1].0]);
    assert("image"@[0] as u8 == encode_utf8("image"@)[0]);
    assert("file"@[0] as u8 == encode_utf8("file"@)[0]);
    assert(a[1] == b[1]);
    assert(a[2].1 == b[2].1);
    assert(a =~= b);
}

/// A Markdown link is determined by where it begins.
pub proof fn lemma_link_determined(bytes: Seq<u8>, a: Seq<(int, int)>, b: Seq<(int, int)>)
    requires
        is_link(bytes, a),
        is_link(bytes, b),
        a[0].0 == b[0].0,
    ensures
        a == b,
{
    assert(a[1] == b[1]);
    assert(a[2].1 == b[2].1);
    assert(a[3].1 == b[3].1);
    assert(a =~= b);
}

/// The match that an offset lies inside of.
pub proof fn lemma_covering_match(captures: Seq<Seq<(int, int)>>, offset: int) -> (k: int)
    requires
        is_covered(captures, offset),
    ensures
        0 <= k < captures.len(),
        captures[k][0].0 <= offset < captures[k][0].1,
{
    reveal(is_covered);
    choose|k: int| 0 <= k < captures.len() && (#[trigger] captures[k])[0].0 <= offset < captures[k][0].1
}

proof fn lemma_same_match(
    bytes: Seq<u8>,
    a: Seq<Seq<(int, int)>>,
    b: Seq<Seq<(int, int)>>,
    k: int,
)
    requires
        well_placed(a, bytes),
        well_placed(b, bytes),
        0 <= k < a.len(),
        is_covered(b, a[k][0].0),
        forall|j: int| 0 <= j < k && j < b.len() ==> a[j] == #[trigger] b[j],
        k <= b.len(),
    ensures
        k < b.len(),
        b[k][0].0 <= a[k][0].0,
{
    let other = lemma_covering_match(b, a[k][0].0);
    if other < k {
        assert(a[other] == b[other]);
        assert(a[other][0].1 <= a[k][0].0);
    } else if other > k {
        assert(is_span(bytes, b[k][0]));
        assert(b[k][0].1 <= b[other][0].0);
    }
}

proof fn lemma_search_determined(
    bytes: Seq<u8>,
    a: Seq<Seq<(int, int)>>,
    b: Seq<Seq<(int, int)>>,
    is_match: spec_fn(Seq<(int, int)>) -> bool,
    k: int,
)
    requires
        well_placed(a, bytes),
        well_placed(b, bytes),
        finds_all(a, is_match),
        finds_all(b, is_match),
        forall|m: Seq<(int, int)>, n: Seq<(int, int)>|
            #[trigger] is_match(m) && #[trigger] is_match(n) && m[0].0 == n[0].0 ==> m == n,
        0 <= k <= a.len(),
    ensures
        k <= b.len(),
        forall|j: int| 0 <= j < k ==> a[j] == #[trigger] b[j],
    decreases k,
{
    if k > 0 {
        let last = k - 1;
        lemma_search_determined(bytes, a, b, is_match, last);
        assert(is_match(a[last]));
        lemma_same_match(bytes, a, b, last);
        assert forall|j: int| 0 <= j < last && j < a.len() implies b[j] == #[trigger] a[j] by {
            assert(a[j] == b[j]);
        }
        assert(is_match(b[last]));
        lemma_same_match(bytes, b, a, last);
    }
}

/// What a search for Bear tokens or Markdown links finds is determined by the
/// text alone.
pub proof fn law_search_is_determined(
    pattern: Seq<char>,
    text: Seq<char>,
    a: Seq<Seq<(int, int)>>,
    b: Seq<Seq<(int, int)>>,
)
    requires
        pattern == BEAR_TOKEN_PATTERN@ || pattern == MARKDOWN_LINK_PATTERN@,
        is_search(pattern, text, a),
        is_search(pattern, text, b),
    ensures
        a == b,
{
    let bytes = encode_utf8(text);
    let is_match = if pattern == BEAR_TOKEN_PATTERN@ {
        |m: Seq<(int, int)>| is_token(bytes, m)
    } else {
        |m: Seq<(int, int)>| is_link(bytes, m)
    };
    assert forall|m: Seq<(int, int)>, n: Seq<(int, int)>|
        #[trigger] is_match(m) && #[trigger] is_match(n) && m[0].0 == n[0].0 implies m == n by {
        if pattern == BEAR_TOKEN_PATTERN@ {
            lemma_token_determined(bytes, m, n);
        } else {
            lemma_link_determined(bytes, m, n);
        }
    }
    lemma_search_determined(bytes, a, b, is_match, a.len() as int);
    lemma_search_determined(bytes, b, a, is_match, b.len() as int);
    assert(a =~= b);
}

/// A byte of an ASCII character is that character.
pub proof fn lemma_ascii_byte_is_char(text: Seq<char>, i: int, c: char)
    requires
        0 <= i < encode_utf8(text).len(),
        encode_utf8(text)[i] == c as u8,
        c < '\u{80}',
    ensures
        text.contains(c),
    decreases text.len(),
{
    let first = text[0] as u32;
    let head = encode_scalar(first);
    let tail = text.drop_first();
    char_is_scalar(text[0]);
    assert(has_width_1_encoding(first) ==> leading_byte_width_1(first) == first) by {
        assert(first <= 0x7f ==> (first & 0x7f) as u8 == first) by (bit_vector);
    }
    assert(leading_byte_width_2(first) >= 0x80) by {
        assert((0xC0u8 | ((first >> 6) & 0x1F) as u8) >= 0x80u8) by (bit_vector);
    }
    assert(leading_byte_width_3(first) >= 0x80) by {
        assert((0xE0u8 | ((first >> 12) & 0x0F) as u8) >= 0x80u8) by (bit_vector);
    }
    assert(leading_byte_width_4(first) >= 0x80) by {
        assert((0xF0u8 | ((first >> 18) & 0x7) as u8) >= 0x80u8) by (bit_vector);
    }
    assert(last_continuation_byte(first) >= 0x80) by {
        assert((0x80u8 | (first & 0x3F) as u8) >= 0x80u8) by (bit_vector);
    }
    assert(second_last_continuation_byte(first) >= 0x80) by {
        assert((0x80u8 | ((first >> 6) & 0x3F) as u8) >= 0x80u8) by (bit_vector);
    }
    assert(third_last_continuation_byte(first) >= 0x80) by {
        assert((0x80u8 | ((first >> 12) & 0x3F) as u8) >= 0x80u8) by (bit_vector);
    }
    assert(text.len() > 0);
    if i < head.len() {
        assert(encode_utf8(text)[i] == head[i]);
        assert(has_width_1_encoding(first));
        char_u32_cast(text[0], first);
        char_u32_cast(c, c as u32);
        assert(first == c as u32);
    } else {
        assert(encode_utf8(tail)[i - head.len()] == c as u8);
        lemma_ascii_byte_is_char(tail, i - head.len(), c);
        let k = choose|k: int| 0 <= k < tail.len() && tail[k] == c;
        assert(text[k + 1] == c);
    }
}

/// A text without `[` holds neither Bear tokens nor Markdown links.
pub proof fn law_no_bracket_no_reference(
    pattern: Seq<char>,
    text: Seq<char>,
    captures: Seq<Seq<(int, int)>>,
)
    requires
        pattern == BEAR_TOKEN_PATTERN@ || pattern == MARKDOWN_LINK_PATTERN@,
        is_search(pattern, text, captures),
        !text.contains('['),
    ensures
        captures.len() == 0,
{
    let bytes = encode_utf8(text);
    if captures.len() > 0 {
        let m = captures[0];
        let at = if pattern == BEAR_TOKEN_PATTERN@ {
            assert(is_token(bytes, m));
            m[0].0
        } else {
            assert(is_link(bytes, m));
            m[1].1
        };
        lemma_ascii_byte_is_char(text, at, '[');
    }
}

proof fn lemma_slice_of_valid_is_valid(bytes: Seq<u8>, start: int, end: int)
    requires
        valid_utf8(bytes),
        is_span(bytes, (start, end)),
    ensures
        valid_utf8(bytes.subrange(start, end)),
{
    lemma_boundary_in_prefix(bytes, start, end);
    let head = bytes.subrange(0, end);
    valid_utf8_split(head, start);
    assert(head.subrange(start, head.len() as int) == bytes.subrange(start, end));
}

proof fn lemma_slices_join(text: Seq<char>, start: int, middle: int, end: int)
    requires
        is_span(encode_utf8(text), (start, middle)),
        is_span(encode_utf8(text), (middle, end)),
    ensures
        slice(text, start, middle) + slice(text, middle, end) == slice(text, start, end),
{
    let bytes = encode_utf8(text);
    encode_utf8_valid_utf8(text);
    let part = bytes.subrange(start, end);
    lemma_slice_of_valid_is_valid(bytes, start, end);
    if middle < end {
        is_char_boundary_iff_not_is_continuation_byte(bytes, middle);
        is_char_boundary_iff_not_is_continuation_byte(part, middle - start);
        assert(part[middle - start] == bytes[middle]);
    } else {
        is_char_boundary_start_end_of_seq(part);
        assert(part.len() == middle - start);
    }
    decode_utf8_split(part, middle - start);
    assert(part.subrange(0, middle - start) == bytes.subrange(start, middle));
    assert(part.subrange(middle - start, part.len() as int) == bytes.subrange(middle, end));
}

proof fn lemma_matches_rejoin_up_to(text: Seq<char>, captures: Seq<Seq<(int, int)>>, n: int)
    requires
        well_placed(captures, encode_utf8(text)),
        0 <= n <= captures.len(),
    ensures
        is_span(encode_utf8(text), (0, end_of(captures, n - 1))),
        replaced_matches(
            taken_apart(text, captures).found.take(n),
            taken_apart(text, captures).wholes(),
        ) == slice(text, 0, end_of(captures, n - 1)),
    decreases n,
{
    let bytes = encode_utf8(text);
    let whole = taken_apart(text, captures);
    encode_utf8_valid_utf8(text);
    is_char_boundary_start_end_of_seq(bytes);
    if n == 0 {
        assert(bytes.subrange(0, 0) == Seq::<u8>::empty());
    } else {
        lemma_matches_rejoin_up_to(text, captures, n - 1);
        let end = end_of(captures, n - 2);
        assert(is_span(bytes, captures[n - 1][0]));
        assert(n > 1 ==> captures[n - 2][0].1 <= captures[n - 1][0].0);
        lemma_slices_join(text, 0, end, captures[n - 1][0].0);
        lemma_slices_join(text, 0, captures[n - 1][0].0, captures[n - 1][0].1);
        assert(whole.found.take(n).drop_last() == whole.found.take(n - 1));
    }
}

/// Putting every match back where it was found gives the text again: nothing
/// of a text is lost or moved when it is taken apart.
pub proof fn law_matches_rejoin(text: Seq<char>, captures: Seq<Seq<(int, int)>>)
    requires
        well_placed(captures, encode_utf8(text)),
    ensures
        taken_apart(text, captures).replaced(taken_apart(text, captures).wholes()) == text,
{
    let bytes = encode_utf8(text);
    let whole = taken_apart(text, captures);
    encode_utf8_valid_utf8(text);
    is_char_boundary_start_end_of_seq(bytes);
    let n = captures.len() as int;
    lemma_matches_rejoin_up_to(text, captures, n);
    assert(whole.found.take(n) == whole.found);
    lemma_slices_join(text, 0, end_of(captures, n - 1), bytes.len() as int);
    assert(bytes.subrange(0, bytes.len() as int) == bytes);
    encode_utf8_decode_utf8(text);
}

} // verus!
