//! Character classes and string operations, stated over sequences of characters.
use vstd::prelude::*;

verus! {

/// `String::push` of std: appends one character.
pub assume_specification[ String::push ](string: &mut String, character: char)
    ensures
        final(string)@ == old(string)@.push(character),
;

/// `String::push_str` of std: appends a string slice.
pub assume_specification[ String::push_str ](string: &mut String, other: &str)
    ensures
        final(string)@ == old(string)@ + other@,
;

/// A set of characters that text is split at or trimmed of.
#[derive(Clone, Copy)]
pub enum CharClass {
    /// Just the one character.
    One(char),
    /// Unicode white space.
    Whitespace,
    /// A full stop or a space.
    DotOrSpace,
}

/// The characters with the Unicode property `White_Space`.
pub open spec fn whitespace(c: char) -> bool {
    ||| '\u{9}' <= c <= '\u{d}'
    ||| c == ' '
    ||| c == '\u{85}'
    ||| c == '\u{a0}'
    ||| c == '\u{1680}'
    ||| '\u{2000}' <= c <= '\u{200a}'
    ||| c == '\u{2028}'
    ||| c == '\u{2029}'
    ||| c == '\u{202f}'
    ||| c == '\u{205f}'
    ||| c == '\u{3000}'
}

/// The control characters: the Unicode category `Cc`.
pub open spec fn control(c: char) -> bool {
    c <= '\u{1f}' || '\u{7f}' <= c <= '\u{9f}'
}

/// Whether `c` is white space.
pub fn is_whitespace(c: char) -> (res: bool)
    ensures
        res == whitespace(c),
{
    ('\u{9}' <= c && c <= '\u{d}') || c == ' ' || c == '\u{85}' || c == '\u{a0}' || c == '\u{1680}'
        || ('\u{2000}' <= c && c <= '\u{200a}') || c == '\u{2028}' || c == '\u{2029}'
        || c == '\u{202f}' || c == '\u{205f}' || c == '\u{3000}'
}

/// Whether `c` is a control character.
pub fn is_control(c: char) -> (res: bool)
    ensures
        res == control(c),
{
    c <= '\u{1f}' || ('\u{7f}' <= c && c <= '\u{9f}')
}

impl CharClass {
    /// Whether the class holds `c`.
    pub open spec fn holds(self, c: char) -> bool {
        match self {
            CharClass::One(one) => c == one,
            CharClass::Whitespace => whitespace(c),
            CharClass::DotOrSpace => c == '.' || c == ' ',
        }
    }

    /// Whether the class holds `c`.
    pub fn contains(&self, c: char) -> (res: bool)
        ensures
            res == self.holds(c),
    {
        match *self {
            CharClass::One(one) => c == one,
            CharClass::Whitespace => is_whitespace(c),
            CharClass::DotOrSpace => c == '.' || c == ' ',
        }
    }
}

/// The characters of `s`.
pub fn chars_of(s: &str) -> (res: Vec<char>)
    ensures
        res@ == s@,
{
    let mut chars: Vec<char> = Vec::new();
    for c in it: s.chars()
        invariant
            chars@ == s@.take(it.index()),
            it.seq() == s@,
    {
        chars.push(c);
    }
    chars
}

/// The characters from `start` up to `end` as a string.
pub fn string_of(chars: &Vec<char>, start: usize, end: usize) -> (res: String)
    requires
        start <= end <= chars@.len(),
    ensures
        res@ == chars@.subrange(start as int, end as int),
{
    let mut string = String::new();
    for i in start..end
        invariant
            start <= end <= chars@.len(),
            string@ == chars@.subrange(start as int, i as int),
    {
        string.push(chars[i]);
    }
    string
}

/// `s` without the characters of `class` at its start.
pub open spec fn trim_start(s: Seq<char>, class: CharClass) -> Seq<char>
    decreases s.len(),
{
    if s.len() > 0 && class.holds(s.first()) {
        trim_start(s.drop_first(), class)
    } else {
        s
    }
}

/// `s` without the characters of `class` at its end.
pub open spec fn trim_end(s: Seq<char>, class: CharClass) -> Seq<char>
    decreases s.len(),
{
    if s.len() > 0 && class.holds(s.last()) {
        trim_end(s.drop_last(), class)
    } else {
        s
    }
}

/// `s` without the characters of `class` at either end.
pub open spec fn trim(s: Seq<char>, class: CharClass) -> Seq<char> {
    trim_end(trim_start(s, class), class)
}

/// `s` cut at every character of `class`: one more piece than there are such
/// characters, none of which is part of a piece.
pub open spec fn split(s: Seq<char>, class: CharClass) -> Seq<Seq<char>>
    decreases s.len(),
{
    if s.len() == 0 {
        seq![Seq::<char>::empty()]
    } else {
        let before = split(s.drop_last(), class);
        if class.holds(s.last()) {
            before.push(Seq::empty())
        } else {
            before.drop_last().push(before.last().push(s.last()))
        }
    }
}

/// The pieces that hold at least one character.
pub open spec fn non_empty(pieces: Seq<Seq<char>>) -> Seq<Seq<char>> {
    pieces.filter(|piece: Seq<char>| piece.len() > 0)
}

/// The pieces in order, with `separator` between each two.
pub open spec fn join(pieces: Seq<Seq<char>>, separator: Seq<char>) -> Seq<char>
    decreases pieces.len(),
{
    if pieces.len() == 0 {
        Seq::empty()
    } else if pieces.len() == 1 {
        pieces[0]
    } else {
        join(pieces.drop_last(), separator) + separator + pieces.last()
    }
}

/// What the strings of a list hold.
pub open spec fn views(strings: Seq<String>) -> Seq<Seq<char>> {
    strings.map_values(|string: String| string@)
}

/// What lists of strings hold.
pub open spec fn list_views(lists: Seq<Vec<String>>) -> Seq<Seq<Seq<char>>> {
    lists.map_values(|list: Vec<String>| views(list@))
}

/// What an optional string holds.
pub open spec fn option_view(string: Option<String>) -> Option<Seq<char>> {
    match string {
        Some(string) => Some(string@),
        None => None,
    }
}

/// `n` in decimal.
pub open spec fn decimal(n: nat) -> Seq<char>
    decreases n,
{
    if n < 10 {
        seq![digit(n)]
    } else {
        decimal(n / 10).push(digit(n % 10))
    }
}

/// The decimal digit `n`.
pub open spec fn digit(n: nat) -> char {
    (48 + n) as char
}

/// `s` without the characters of `class` at its start.
pub fn trimmed_start(s: &str, class: CharClass) -> (res: String)
    ensures
        res@ == trim_start(s@, class),
{
    let chars = chars_of(s);
    let mut start: usize = 0;
    assert(chars@.skip(0) == chars@);
    while start < chars.len() && class.contains(chars[start])
        invariant
            start <= chars@.len(),
            trim_start(chars@.skip(start as int), class) == trim_start(chars@, class),
        decreases chars@.len() - start,
    {
        assert(chars@.skip(start as int).drop_first() == chars@.skip(start + 1));
        start = start + 1;
    }
    string_of(&chars, start, chars.len())
}

/// `s` without the characters of `class` at its end.
pub fn trimmed_end(s: &str, class: CharClass) -> (res: String)
    ensures
        res@ == trim_end(s@, class),
{
    let chars = chars_of(s);
    let mut end: usize = chars.len();
    assert(chars@.take(end as int) == chars@);
    while end > 0 && class.contains(chars[end - 1])
        invariant
            end <= chars@.len(),
            trim_end(chars@.take(end as int), class) == trim_end(chars@, class),
        decreases end,
    {
        assert(chars@.take(end as int).drop_last() == chars@.take(end - 1));
        end = end - 1;
    }
    string_of(&chars, 0, end)
}

/// `s` without the characters of `class` at either end.
pub fn trimmed(s: &str, class: CharClass) -> (res: String)
    ensures
        res@ == trim(s@, class),
{
    trimmed_end(trimmed_start(s, class).as_str(), class)
}

/// Trimming takes a part of the text, which the class is at neither end of, and
/// leaves out nothing else than the class.
pub proof fn lemma_trim_is_part(s: Seq<char>, class: CharClass) -> (span: (int, int))
    ensures
        0 <= span.0 <= span.1 <= s.len(),
        trim(s, class) == s.subrange(span.0, span.1),
        trim(s, class).len() > 0 ==> !class.holds(trim(s, class).first()) && !class.holds(trim(s, class).last()),
        forall|i: int| 0 <= i < span.0 || span.1 <= i < s.len() ==> class.holds(#[trigger] s[i]),
{
    let start = lemma_trim_start_is_part(s, class);
    let end = lemma_trim_end_is_part(trim_start(s, class), class);
    assert(s.skip(start).take(end) == s.subrange(start, start + end));
    assert forall|i: int| start + end <= i < s.len() implies class.holds(#[trigger] s[i]) by {
        assert(s.skip(start)[i - start] == s[i]);
    }
    (start, start + end)
}

/// Trimming the start leaves the rest of the text, from `start` on.
pub proof fn lemma_trim_start_is_part(s: Seq<char>, class: CharClass) -> (start: int)
    ensures
        0 <= start <= s.len(),
        trim_start(s, class) == s.skip(start),
        trim_start(s, class).len() > 0 ==> !class.holds(trim_start(s, class).first()),
        forall|i: int| 0 <= i < start ==> class.holds(#[trigger] s[i]),
    decreases s.len(),
{
    if s.len() > 0 && class.holds(s.first()) {
        let start = lemma_trim_start_is_part(s.drop_first(), class);
        assert(s.drop_first().skip(start) == s.skip(start + 1));
        assert forall|i: int| 0 <= i < start + 1 implies class.holds(#[trigger] s[i]) by {
            if i > 0 {
                assert(s.drop_first()[i - 1] == s[i]);
            }
        }
        start + 1
    } else {
        assert(s.skip(0) == s);
        0
    }
}

/// Trimming the end leaves the text up to `end`.
pub proof fn lemma_trim_end_is_part(s: Seq<char>, class: CharClass) -> (end: int)
    ensures
        0 <= end <= s.len(),
        trim_end(s, class) == s.take(end),
        trim_end(s, class).len() > 0 ==> !class.holds(trim_end(s, class).last()),
        forall|i: int| end <= i < s.len() ==> class.holds(#[trigger] s[i]),
    decreases s.len(),
{
    if s.len() > 0 && class.holds(s.last()) {
        let end = lemma_trim_end_is_part(s.drop_last(), class);
        assert(s.drop_last().take(end) == s.take(end));
        assert forall|i: int| end <= i < s.len() implies class.holds(#[trigger] s[i]) by {
            if i < s.len() - 1 {
                assert(s.drop_last()[i] == s[i]);
            }
        }
        end
    } else {
        assert(s.take(s.len() as int) == s);
        s.len() as int
    }
}

/// A text without a character of the class stays in one piece.
pub proof fn lemma_split_without_separator(s: Seq<char>, class: CharClass)
    requires
        forall|i: int| 0 <= i < s.len() ==> !class.holds(#[trigger] s[i]),
    ensures
        split(s, class) == seq![s],
    decreases s.len(),
{
    if s.len() > 0 {
        lemma_split_without_separator(s.drop_last(), class);
        assert(s.drop_last().push(s.last()) == s);
    } else {
        assert(s == Seq::<char>::empty());
    }
}

/// Cutting a text gives at least one piece.
pub proof fn lemma_split_is_not_empty(s: Seq<char>, class: CharClass)
    ensures
        split(s, class).len() > 0,
    decreases s.len(),
{
    if s.len() > 0 {
        lemma_split_is_not_empty(s.drop_last(), class);
    }
}

/// `s` cut at every character of `class`.
pub fn split_at_each(s: &str, class: CharClass) -> (res: Vec<String>)
    ensures
        views(res@) == split(s@, class),
{
    let chars = chars_of(s);
    let mut pieces: Vec<String> = Vec::new();
    let mut piece = String::new();
    assert(chars@.take(0).len() == 0);
    for i in 0..chars.len()
        invariant
            views(pieces@).push(piece@) == split(chars@.take(i as int), class),
    {
        assert(chars@.take(i + 1).drop_last() == chars@.take(i as int));
        let ghost before = views(pieces@);
        if class.contains(chars[i]) {
            pieces.push(piece);
            piece = String::new();
            assert(views(pieces@) == before.push(split(chars@.take(i as int), class).last()));
        } else {
            piece.push(chars[i]);
            assert(split(chars@.take(i as int), class).drop_last() == before);
        }
    }
    let ghost before = views(pieces@);
    let ghost last = piece@;
    pieces.push(piece);
    assert(views(pieces@) == before.push(last));
    assert(chars@.take(chars@.len() as int) == chars@);
    pieces
}

/// The strings that hold at least one character, in order.
pub fn without_empty(pieces: &Vec<String>) -> (res: Vec<String>)
    ensures
        views(res@) == non_empty(views(pieces@)),
{
    let mut kept: Vec<String> = Vec::new();
    let ghost keep = |piece: Seq<char>| piece.len() > 0;
    for i in 0..pieces.len()
        invariant
            keep == |piece: Seq<char>| piece.len() > 0,
            views(kept@) == views(pieces@).take(i as int).filter(keep),
    {
        reveal(Seq::filter);
        let ghost before = views(kept@);
        assert(views(pieces@).take(i + 1).drop_last() == views(pieces@).take(i as int));
        if !pieces[i].as_str().is_empty() {
            kept.push(pieces[i].clone());
            assert(views(kept@) == before.push(pieces@[i as int]@));
        }
    }
    assert(views(pieces@).take(pieces@.len() as int) == views(pieces@));
    kept
}

/// The strings in order, with `separator` between each two.
pub fn joined(pieces: &Vec<String>, separator: &str) -> (res: String)
    ensures
        res@ == join(views(pieces@), separator@),
{
    let mut result = String::new();
    for i in 0..pieces.len()
        invariant
            result@ == join(views(pieces@).take(i as int), separator@),
    {
        assert(views(pieces@).take(i + 1).drop_last() == views(pieces@).take(i as int));
        if i > 0 {
            result.push_str(separator);
        }
        result.push_str(pieces[i].as_str());
    }
    assert(views(pieces@).take(pieces@.len() as int) == views(pieces@));
    result
}

/// Whether two strings hold the same characters.
pub fn same(a: &str, b: &str) -> (res: bool)
    ensures
        res == (a@ == b@),
{
    a.to_owned() == b.to_owned()
}

/// Whether two lists hold the same strings.
pub fn same_list(a: &Vec<String>, b: &Vec<String>) -> (res: bool)
    ensures
        res == (views(a@) == views(b@)),
{
    if a.len() != b.len() {
        assert(views(a@).len() != views(b@).len());
        return false;
    }
    for i in 0..a.len()
        invariant
            a@.len() == b@.len(),
            views(a@).take(i as int) == views(b@).take(i as int),
    {
        if a[i] != b[i] {
            assert(views(a@)[i as int] != views(b@)[i as int]);
            return false;
        }
        assert(views(a@).take(i + 1) == views(a@).take(i as int).push(views(a@)[i as int]));
        assert(views(b@).take(i + 1) == views(b@).take(i as int).push(views(b@)[i as int]));
    }
    assert(views(a@).take(a@.len() as int) == views(a@));
    assert(views(b@).take(a@.len() as int) == views(b@));
    true
}

/// A copy of lists of strings.
pub fn copied_lists(lists: &Vec<Vec<String>>) -> (res: Vec<Vec<String>>)
    ensures
        list_views(res@) == list_views(lists@),
{
    let mut copies: Vec<Vec<String>> = Vec::new();
    for i in 0..lists.len()
        invariant
            list_views(copies@) == list_views(lists@).take(i as int),
    {
        let ghost before = list_views(copies@);
        let list = lists[i].clone();
        assert(views(list@) == views(lists@[i as int]@));
        copies.push(list);
        assert(list_views(copies@) == before.push(list_views(lists@)[i as int]));
        assert(list_views(lists@).take(i + 1) == before.push(list_views(lists@)[i as int]));
    }
    assert(list_views(lists@).take(lists@.len() as int) == list_views(lists@));
    copies
}

/// Whether the list holds `string`.
pub fn holds(list: &Vec<String>, string: &String) -> (res: bool)
    ensures
        res == views(list@).contains(string@),
{
    for i in 0..list.len()
        invariant
            forall|j: int| 0 <= j < i ==> list@[j]@ != string@,
    {
        if list[i] == *string {
            assert(views(list@)[i as int] == string@);
            return true;
        }
    }
    false
}

/// `n` in decimal.
pub fn decimal_string(n: usize) -> (res: String)
    ensures
        res@ == decimal(n as nat),
    decreases n,
{
    if n < 10 {
        let mut string = String::new();
        string.push((48u8 + n as u8) as char);
        string
    } else {
        let mut string = decimal_string(n / 10);
        string.push((48u8 + (n % 10) as u8) as char);
        string
    }
}

/// Leaving out empty pieces of two lists one after the other.
pub proof fn lemma_non_empty_concat(a: Seq<Seq<char>>, b: Seq<Seq<char>>)
    ensures
        non_empty(a + b) == non_empty(a) + non_empty(b),
{
    Seq::filter_distributes_over_add(a, b, |piece: Seq<char>| piece.len() > 0);
}

/// Leaving out empty pieces of a list of one.
pub proof fn lemma_non_empty_one(piece: Seq<char>)
    ensures
        non_empty(seq![piece]) == if piece.len() > 0 {
            seq![piece]
        } else {
            Seq::empty()
        },
{
    reveal(Seq::filter);
    assert(seq![piece].drop_last() == Seq::<Seq<char>>::empty());
    assert(non_empty(Seq::<Seq<char>>::empty()) == Seq::<Seq<char>>::empty());
    assert(non_empty(seq![piece]) =~= if piece.len() > 0 {
        seq![piece]
    } else {
        Seq::empty()
    });
}

/// One more character of the class at the start makes no difference.
pub proof fn lemma_trim_extra_start(c: char, s: Seq<char>, class: CharClass)
    requires
        class.holds(c),
    ensures
        trim(seq![c] + s, class) == trim(s, class),
{
    assert((seq![c] + s).drop_first() == s);
}

/// One more character of the class at the end makes no difference.
pub proof fn lemma_trim_extra_end(s: Seq<char>, c: char, class: CharClass)
    requires
        class.holds(c),
    ensures
        trim(s.push(c), class) == trim(s, class),
    decreases s.len(),
{
    if s.len() == 0 {
        assert(s.push(c).drop_first() == s);
    } else if class.holds(s.first()) {
        assert(s.push(c).first() == s.first());
        assert(s.push(c).drop_first() == s.drop_first().push(c));
        lemma_trim_extra_end(s.drop_first(), c, class);
    } else {
        assert(s.push(c).first() == s.first());
        assert(s.push(c).drop_last() == s);
    }
}

/// Nothing is left out of a list without empty pieces.
pub proof fn lemma_all_non_empty(pieces: Seq<Seq<char>>)
    requires
        forall|k: int| 0 <= k < pieces.len() ==> (#[trigger] pieces[k]).len() > 0,
    ensures
        non_empty(pieces) == pieces,
    decreases pieces.len(),
{
    reveal(Seq::filter);
    if pieces.len() > 0 {
        let head = pieces.drop_last();
        assert forall|k: int| 0 <= k < head.len() implies (#[trigger] head[k]).len() > 0 by {
            assert(head[k] == pieces[k]);
        }
        lemma_all_non_empty(head);
        assert(pieces[pieces.len() - 1].len() > 0);
        assert(head.push(pieces.last()) == pieces);
    } else {
        assert(non_empty(pieces) =~= pieces);
    }
}

/// White space, controls and the other classes, by the numbers that their
/// characters have in Unicode.
pub proof fn law_character_classes(c: char, one: char)
    ensures
        whitespace(c) <==> {
            let n = c as u32;
            9 <= n <= 13 || n == 32 || n == 133 || n == 160 || n == 5760 || 8192 <= n <= 8202 || n == 8232
                || n == 8233 || n == 8239 || n == 8287 || n == 12288
        },
        control(c) <==> (c as u32) < 32 || 127 <= (c as u32) < 160,
        CharClass::Whitespace.holds(c) <==> whitespace(c),
        CharClass::DotOrSpace.holds(c) <==> c as u32 == 46 || c as u32 == 32,
        CharClass::One(one).holds(c) <==> c == one,
{
}

/// What a list holds is what each of its strings holds, in their order, and all
/// of them.
pub proof fn law_views_leave_nothing_out(strings: Seq<String>, lists: Seq<Vec<String>>, string: String)
    ensures
        views(strings).len() == strings.len(),
        forall|i: int| 0 <= i < strings.len() ==> #[trigger] views(strings)[i] == strings[i]@,
        list_views(lists).len() == lists.len(),
        forall|i: int| 0 <= i < lists.len() ==> #[trigger] list_views(lists)[i] == views(lists[i]@),
        option_view(Some(string)) == Some(string@),
        option_view(None) == None::<Seq<char>>,
{
}

/// A text is cut at every separator, and nowhere else: the pieces on both sides
/// of a separator are those of the text before it and of the text behind it.
pub proof fn law_split_at_separator(a: Seq<char>, c: char, b: Seq<char>, class: CharClass)
    requires
        class.holds(c),
    ensures
        split(a + seq![c] + b, class) == split(a, class) + split(b, class),
    decreases b.len(),
{
    let all = a + seq![c] + b;
    if b.len() == 0 {
        assert(all.drop_last() == a);
        assert(all.last() == c);
        assert(split(a, class).push(Seq::<char>::empty()) == split(a, class) + seq![Seq::<char>::empty()]);
    } else {
        let before = split(b.drop_last(), class);
        law_split_at_separator(a, c, b.drop_last(), class);
        lemma_split_is_not_empty(b.drop_last(), class);
        assert(all.drop_last() == a + seq![c] + b.drop_last());
        assert(all.last() == b.last());
        let joined = split(a, class) + before;
        assert(joined.last() == before.last());
        assert(joined.drop_last() == split(a, class) + before.drop_last());
        assert(split(all, class) =~= split(a, class) + split(b, class));
    }
}

/// Joining two lists one after the other is joining both, with the separator
/// between them.
pub proof fn law_join_of_both(a: Seq<Seq<char>>, b: Seq<Seq<char>>, separator: Seq<char>)
    requires
        a.len() > 0,
        b.len() > 0,
    ensures
        join(a + b, separator) == join(a, separator) + separator + join(b, separator),
    decreases b.len(),
{
    let all = a + b;
    assert(all.last() == b.last());
    if b.len() == 1 {
        assert(all.drop_last() == a);
    } else {
        law_join_of_both(a, b.drop_last(), separator);
        assert(all.drop_last() == a + b.drop_last());
        assert(join(all, separator) =~= join(a, separator) + separator + join(b, separator));
    }
}

/// What is joined with a separator can be taken apart again, if no piece holds
/// the separator.
pub proof fn law_joined_pieces_can_be_split(pieces: Seq<Seq<char>>, c: char)
    requires
        pieces.len() > 0,
        forall|k: int| 0 <= k < pieces.len() ==> !(#[trigger] pieces[k]).contains(c),
    ensures
        split(join(pieces, seq![c]), CharClass::One(c)) == pieces,
    decreases pieces.len(),
{
    let class = CharClass::One(c);
    let last = pieces.last();
    assert(!pieces[pieces.len() - 1].contains(c));
    assert forall|i: int| 0 <= i < last.len() implies !class.holds(#[trigger] last[i]) by {
        assert(last.contains(last[i]));
    }
    lemma_split_without_separator(last, class);
    if pieces.len() == 1 {
        assert(pieces == seq![last]);
    } else {
        let before = pieces.drop_last();
        assert forall|k: int| 0 <= k < before.len() implies !(#[trigger] before[k]).contains(c) by {
            assert(before[k] == pieces[k]);
        }
        law_joined_pieces_can_be_split(before, c);
        law_split_at_separator(join(before, seq![c]), c, last, class);
        assert(pieces == before + seq![last]);
    }
}

/// The number that decimal digits stand for.
pub open spec fn number_of(digits: Seq<char>) -> int
    decreases digits.len(),
{
    if digits.len() == 0 {
        0
    } else {
        number_of(digits.drop_last()) * 10 + (digits.last() as int - '0' as int)
    }
}

/// A number can be read back from its decimal digits, of which the first is not
/// zero unless it is the only one.
pub proof fn law_decimal_can_be_read_back(n: nat)
    ensures
        number_of(decimal(n)) == n,
        decimal(n).len() > 0,
        decimal(n).len() > 1 ==> decimal(n)[0] != '0',
        n > 0 ==> decimal(n)[0] != '0',
        forall|i: int| 0 <= i < decimal(n).len() ==> '0' <= #[trigger] decimal(n)[i] <= '9',
    decreases n,
{
    let all = decimal(n);
    if n >= 10 {
        let before = decimal(n / 10);
        law_decimal_can_be_read_back(n / 10);
        assert(all.drop_last() == before);
        assert forall|i: int| 0 <= i < all.len() implies '0' <= #[trigger] all[i] <= '9' by {
            if i < before.len() {
                assert(all[i] == before[i]);
            }
        }
        assert(all[0] == before[0]);
    } else {
        assert(all.drop_last() == Seq::<char>::empty());
        assert(number_of(Seq::<char>::empty()) == 0);
    }
}

} // verus!
