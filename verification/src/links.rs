//! Percent-encoding of link destinations.
use crate::text::{join, joined, law_join_of_both, views};
use percent_encoding::{percent_decode_str, utf8_percent_encode, AsciiSet, CONTROLS};
use vstd::prelude::*;
use vstd::utf8::*;

verus! {

/// The set of ASCII bytes of the `percent-encoding` crate.
#[verifier::external_type_specification]
#[verifier::external_body]
pub struct ExAsciiSet(AsciiSet);

/// The bytes in an [`AsciiSet`].
pub uninterp spec fn ascii_set_bytes(set: AsciiSet) -> Set<u8>;

/// `percent_encoding::CONTROLS`: the bytes up to 0x1F, and 0x7F.
#[verifier::external_body]
fn controls() -> (res: &'static AsciiSet)
    ensures
        ascii_set_bytes(*res) == Set::new(|b: u8| b <= 0x1f || b == 0x7f),
{
    CONTROLS
}

/// `AsciiSet::add` of the `percent-encoding` crate: the set with one more byte.
/// It takes ASCII bytes only.
pub assume_specification[ AsciiSet::add ](set: &AsciiSet, byte: u8) -> (res: AsciiSet)
    requires
        byte < 0x80,
    ensures
        ascii_set_bytes(res) == ascii_set_bytes(*set).insert(byte),
;

/// `Box::leak` of std: keeps the set for as long as the program runs.
#[verifier::external_body]
fn leak(set: AsciiSet) -> (res: &'static AsciiSet)
    ensures
        *res == set,
{
    Box::leak(Box::new(set))
}

/// The upper-case hexadecimal digit for `n`.
pub open spec fn hex_digit(n: int) -> char {
    if n < 10 {
        (48 + n) as char
    } else {
        (55 + n) as char
    }
}

/// One byte: as `%` and two hexadecimal digits where it is not ASCII or in
/// `escaped`, else as the character it stands for.
pub open spec fn percent_encoded_byte(byte: u8, escaped: Set<u8>) -> Seq<char> {
    if byte >= 0x80 || escaped.contains(byte) {
        seq!['%', hex_digit(byte as int / 16), hex_digit(byte as int % 16)]
    } else {
        seq![byte as char]
    }
}

/// The bytes one after the other, percent-encoded.
pub open spec fn percent_encoded(bytes: Seq<u8>, escaped: Set<u8>) -> Seq<char>
    decreases bytes.len(),
{
    if bytes.len() == 0 {
        Seq::empty()
    } else {
        percent_encoded_byte(bytes.first(), escaped) + percent_encoded(bytes.drop_first(), escaped)
    }
}

/// What a hexadecimal digit of either case stands for.
pub open spec fn hex_value(byte: u8) -> Option<u8> {
    if 48 <= byte <= 57 {
        Some((byte - 48) as u8)
    } else if 65 <= byte <= 70 {
        Some((byte - 55) as u8)
    } else if 97 <= byte <= 102 {
        Some((byte - 87) as u8)
    } else {
        None
    }
}

/// The bytes with each `%` and two hexadecimal digits replaced by the byte
/// that they stand for. A `%` without two digits behind it stays.
pub open spec fn percent_decoded(bytes: Seq<u8>) -> Seq<u8>
    decreases bytes.len(),
{
    if bytes.len() == 0 {
        Seq::empty()
    } else if bytes[0] == '%' as u8 && bytes.len() >= 3 && hex_value(bytes[1]) is Some && hex_value(
        bytes[2],
    ) is Some {
        seq![(hex_value(bytes[1])->0 * 16 + hex_value(bytes[2])->0) as u8] + percent_decoded(bytes.skip(3))
    } else {
        seq![bytes[0]] + percent_decoded(bytes.drop_first())
    }
}

/// `utf8_percent_encode` of the `percent-encoding` crate, as a string: the
/// UTF-8 bytes of `input`, percent-encoded where they are in the set or not
/// ASCII.
#[verifier::external_body]
fn percent_encode(input: &str, escaped: &'static AsciiSet) -> (res: String)
    ensures
        res@ == percent_encoded(encode_utf8(input@), ascii_set_bytes(*escaped)),
{
    utf8_percent_encode(input, escaped).to_string()
}

/// `percent_decode_str` of the `percent-encoding` crate, followed by its
/// `decode_utf8`: the string whose UTF-8 bytes are the decoded ones, if there
/// is one.
#[verifier::external_body]
pub(crate) fn percent_decode(input: &str) -> (res: Option<String>)
    ensures
        match res {
            Some(decoded) => encode_utf8(decoded@) == percent_decoded(encode_utf8(input@)),
            None => !valid_utf8(percent_decoded(encode_utf8(input@))),
        },
{
    percent_decode_str(input).decode_utf8().ok().map(|decoded| decoded.into_owned())
}

/// The bytes that must be percent-encoded inside a Markdown link destination:
/// controls, space, and `%`, `(`, `)`, `#`, `?`, `[`, `]`, `<`, `>`.
pub open spec fn link_escapes() -> Set<u8> {
    Set::new(
        |b: u8|
            {
                ||| b <= 0x1f
                ||| b == 0x7f
                ||| b == ' ' as u8
                ||| b == '%' as u8
                ||| b == '(' as u8
                ||| b == ')' as u8
                ||| b == '#' as u8
                ||| b == '?' as u8
                ||| b == '[' as u8
                ||| b == ']' as u8
                ||| b == '<' as u8
                ||| b == '>' as u8
            },
    )
}

/// The escapes of link destinations, made once and used for every link.
#[derive(Clone, Copy)]
pub struct LinkEscapes {
    set: &'static AsciiSet,
}

impl LinkEscapes {
    #[verifier::type_invariant]
    spec fn well_formed(self) -> bool {
        ascii_set_bytes(*self.set) == link_escapes()
    }

    /// The bytes that are escaped.
    pub closed spec fn bytes(self) -> Set<u8> {
        ascii_set_bytes(*self.set)
    }

    /// The escapes of link destinations.
    pub fn new() -> (res: LinkEscapes)
        ensures
            res.bytes() == link_escapes(),
    {
        let set = controls()
            .add(' ' as u8)
            .add('%' as u8)
            .add('(' as u8)
            .add(')' as u8)
            .add('#' as u8)
            .add('?' as u8)
            .add('[' as u8)
            .add(']' as u8)
            .add('<' as u8)
            .add('>' as u8);
        assert(ascii_set_bytes(set) == link_escapes());
        LinkEscapes { set: leak(set) }
    }
}

/// The destination of a link to `path`: its components, each percent-encoded,
/// with slashes between them.
pub open spec fn link_to(path: Seq<Seq<char>>) -> Seq<char> {
    join(path.map_values(|component: Seq<char>| percent_encoded(encode_utf8(component), link_escapes())), "/"@)
}

/// Percent-encodes a relative path for use as a Markdown link destination.
pub fn encode_link(path: &Vec<String>, escapes: &LinkEscapes) -> (res: String)
    ensures
        res@ == link_to(views(path@)),
{
    let mut encoded: Vec<String> = Vec::new();
    proof {
        use_type_invariant(escapes);
    }
    for i in 0..path.len()
        invariant
            ascii_set_bytes(*escapes.set) == link_escapes(),
            encoded@.len() == i,
            forall|j: int|
                0 <= j < i ==> (#[trigger] encoded@[j])@ == percent_encoded(
                    encode_utf8(path@[j]@),
                    link_escapes(),
                ),
    {
        encoded.push(percent_encode(path[i].as_str(), escapes.set));
    }
    assert(views(encoded@) == views(path@).map_values(
        |component: Seq<char>| percent_encoded(encode_utf8(component), link_escapes()),
    ));
    joined(&encoded, "/")
}

/// Encoding two texts one after the other is encoding the whole.
pub proof fn lemma_encode_concat(a: Seq<char>, b: Seq<char>)
    ensures
        encode_utf8(a + b) == encode_utf8(a) + encode_utf8(b),
    decreases a.len(),
{
    if a.len() == 0 {
        assert(a + b == b);
    } else {
        lemma_encode_concat(a.drop_first(), b);
        assert((a + b).drop_first() == a.drop_first() + b);
    }
}

/// A character that percent-encoding with the link escapes may leave.
pub open spec fn is_link_char(c: char) -> bool {
    ' ' < c <= '~' && c != '(' && c != ')' && c != '#' && c != '?' && c != '[' && c != ']' && c != '<' && c
        != '>'
}

/// Whether percent-encoding with the link escapes may leave all of `s`.
pub open spec fn is_link_text(s: Seq<char>) -> bool {
    forall|i: int| 0 <= i < s.len() ==> is_link_char(#[trigger] s[i])
}

proof fn lemma_link_text_concat(a: Seq<char>, b: Seq<char>)
    requires
        is_link_text(a),
        is_link_text(b),
    ensures
        is_link_text(a + b),
{
    assert forall|i: int| 0 <= i < (a + b).len() implies is_link_char(#[trigger] (a + b)[i]) by {
        if i < a.len() {
            assert(is_link_char(a[i]));
        } else {
            assert(is_link_char(b[i - a.len()]));
        }
    }
}

proof fn lemma_encoded_chars(bytes: Seq<u8>)
    ensures
        is_link_text(percent_encoded(bytes, link_escapes())),
    decreases bytes.len(),
{
    if bytes.len() > 0 {
        lemma_encoded_chars(bytes.drop_first());
        let first = percent_encoded_byte(bytes.first(), link_escapes());
        assert(is_link_text(first));
        lemma_link_text_concat(first, percent_encoded(bytes.drop_first(), link_escapes()));
    }
}

proof fn lemma_decode_encoded(bytes: Seq<u8>, rest: Seq<u8>)
    ensures
        percent_decoded(encode_utf8(percent_encoded(bytes, link_escapes())) + rest) == bytes
            + percent_decoded(rest),
    decreases bytes.len(),
{
    let encoded = percent_encoded(bytes, link_escapes());
    if bytes.len() == 0 {
        assert(encode_utf8(encoded) + rest == rest);
        assert(bytes + percent_decoded(rest) == percent_decoded(rest));
    } else {
        let first = bytes.first();
        let head = percent_encoded_byte(first, link_escapes());
        let tail = percent_encoded(bytes.drop_first(), link_escapes());
        lemma_decode_encoded(bytes.drop_first(), rest);
        lemma_encode_concat(head, tail);
        assert(is_ascii_chars(head));
        is_ascii_chars_encode_utf8(head);
        let all = encode_utf8(encoded) + rest;
        let after = encode_utf8(tail) + rest;
        if head.len() == 3 {
            assert(all[0] == 37);
            assert(hex_value(all[1]) == Some((first as int / 16) as u8));
            assert(hex_value(all[2]) == Some((first as int % 16) as u8));
            assert(all.skip(3) == after);
        } else {
            assert(all[0] == first);
            assert(first != 37);
            assert(all.drop_first() == after);
        }
        assert(seq![first] + (bytes.drop_first() + percent_decoded(rest)) == bytes + percent_decoded(rest));
    }
}

proof fn lemma_encoded_path_decodes(path: Seq<Seq<char>>, rest: Seq<u8>)
    ensures
        percent_decoded(encode_utf8(link_to(path)) + rest) == encode_utf8(join(path, "/"@))
            + percent_decoded(rest),
    decreases path.len(),
{
    reveal_strlit("/");
    let encode = |component: Seq<char>| percent_encoded(encode_utf8(component), link_escapes());
    let encoded = path.map_values(encode);
    if path.len() == 0 {
        assert(encode_utf8(link_to(path)) + rest == rest);
        assert(encode_utf8(join(path, "/"@)) + percent_decoded(rest) == percent_decoded(rest));
    } else {
        let last = path.last();
        let last_bytes = encode_utf8(last);
        let last_encoded = encode_utf8(percent_encoded(last_bytes, link_escapes()));
        lemma_decode_encoded(last_bytes, rest);
        if path.len() > 1 {
            let before = path.drop_last();
            assert(encoded.drop_last() == before.map_values(encode));
            assert(is_ascii_chars("/"@));
            is_ascii_chars_encode_utf8("/"@);
            let slash = encode_utf8("/"@);
            assert(slash == seq![47u8]);
            lemma_encode_concat(link_to(before) + "/"@, encoded.last());
            lemma_encode_concat(link_to(before), "/"@);
            lemma_encode_concat(join(before, "/"@) + "/"@, last);
            lemma_encode_concat(join(before, "/"@), "/"@);
            let tail = slash + (last_encoded + rest);
            lemma_encoded_path_decodes(before, tail);
            assert(tail.drop_first() == last_encoded + rest);
            assert(encode_utf8(link_to(path)) + rest == encode_utf8(link_to(before)) + tail);
            assert(percent_decoded(tail) == slash + (last_bytes + percent_decoded(rest)));
            assert(encode_utf8(join(path, "/"@)) + percent_decoded(rest) == encode_utf8(
                join(before, "/"@),
            ) + (slash + (last_bytes + percent_decoded(rest))));
        }
    }
}

/// A link leads back to its path: decoding the destination gives the
/// components of the path with slashes between them.
pub proof fn law_link_decodes_to_path(path: Seq<Seq<char>>)
    ensures
        percent_decoded(encode_utf8(link_to(path))) == encode_utf8(join(path, "/"@)),
{
    let none = Seq::<u8>::empty();
    lemma_encoded_path_decodes(path, none);
    assert(encode_utf8(link_to(path)) + none == encode_utf8(link_to(path)));
    assert(percent_decoded(none) == none);
}

/// A link destination holds only printable ASCII characters, and none that
/// would end it or mean something else in a Markdown link.
pub proof fn law_link_is_safe(path: Seq<Seq<char>>)
    ensures
        is_link_text(link_to(path)),
    decreases path.len(),
{
    reveal_strlit("/");
    let encode = |component: Seq<char>| percent_encoded(encode_utf8(component), link_escapes());
    let encoded = path.map_values(encode);
    if path.len() > 0 {
        lemma_encoded_chars(encode_utf8(path.last()));
        law_link_is_safe(path.drop_last());
        assert(encoded.drop_last() == path.drop_last().map_values(encode));
        assert(is_link_text("/"@));
        lemma_link_text_concat(link_to(path.drop_last()), "/"@);
        lemma_link_text_concat(link_to(path.drop_last()) + "/"@, encoded.last());
    }
}

/// Whether a character may stand in a link as it is: it is printable and ASCII,
/// and none of space, `#`, `%`, `(`, `)`, `<`, `>`, `?`, `[` and `]`.
pub open spec fn stays_in_link(c: char) -> bool {
    let n = c as u32;
    &&& 32 < n < 127
    &&& n != 35 && n != 37 && n != 40 && n != 41 && n != 60 && n != 62 && n != 63 && n != 91 && n != 93
}

proof fn lemma_encoded_concat(a: Seq<u8>, b: Seq<u8>, escaped: Set<u8>)
    ensures
        percent_encoded(a + b, escaped) == percent_encoded(a, escaped) + percent_encoded(b, escaped),
    decreases a.len(),
{
    if a.len() == 0 {
        assert(a + b == b);
        assert(Seq::<char>::empty() + percent_encoded(b, escaped) == percent_encoded(b, escaped));
    } else {
        lemma_encoded_concat(a.drop_first(), b, escaped);
        assert((a + b).drop_first() == a.drop_first() + b);
        assert(percent_encoded(a + b, escaped) =~= percent_encoded(a, escaped) + percent_encoded(b, escaped));
    }
}

/// In a link every character that may stand there stays as it is, wherever it is
/// in a name; every other ASCII character becomes `%` and the two upper-case
/// hexadecimal digits of its number.
pub proof fn law_link_escapes_only_what_it_must(a: Seq<char>, c: char, b: Seq<char>)
    ensures
        link_to(seq![a + b]) == link_to(seq![a]) + link_to(seq![b]),
        stays_in_link(c) ==> link_to(seq![seq![c]]) == seq![c],
        !stays_in_link(c) && (c as u32) < 128 ==> link_to(seq![seq![c]]) == seq![
            '%',
            "0123456789ABCDEF"@[c as int / 16],
            "0123456789ABCDEF"@[c as int % 16],
        ],
{
    reveal_strlit("0123456789ABCDEF");
    lemma_encode_concat(a, b);
    lemma_encoded_concat(encode_utf8(a), encode_utf8(b), link_escapes());
    let encode = |component: Seq<char>| percent_encoded(encode_utf8(component), link_escapes());
    assert(seq![a + b].map_values(encode) =~= seq![encode(a + b)]);
    assert(seq![a].map_values(encode) =~= seq![encode(a)]);
    assert(seq![b].map_values(encode) =~= seq![encode(b)]);
    if (c as u32) < 128 {
        let byte = c as u8;
        assert(is_ascii_chars(seq![c]));
        is_ascii_chars_encode_utf8(seq![c]);
        assert(encode_utf8(seq![c]) =~= seq![byte]);
        assert(seq![byte].drop_first() == Seq::<u8>::empty());
        assert(seq![seq![c]].map_values(encode) =~= seq![encode(seq![c])]);
        assert(percent_encoded(Seq::<u8>::empty(), link_escapes()) == Seq::<char>::empty());
        assert(percent_encoded(seq![byte], link_escapes()) =~= percent_encoded_byte(byte, link_escapes()));
        assert(link_escapes().contains(byte) <==> !stays_in_link(c));
        assert(byte as char == c);
    }
}

/// The names of a path stand in its link with slashes between them.
pub proof fn law_link_of_names(a: Seq<Seq<char>>, b: Seq<Seq<char>>)
    requires
        a.len() > 0,
        b.len() > 0,
    ensures
        link_to(a + b) == link_to(a) + seq!['/'] + link_to(b),
{
    reveal_strlit("/");
    assert("/"@ =~= seq!['/']);
    let encode = |component: Seq<char>| percent_encoded(encode_utf8(component), link_escapes());
    assert((a + b).map_values(encode) =~= a.map_values(encode) + b.map_values(encode));
    law_join_of_both(a.map_values(encode), b.map_values(encode), "/"@);
}

} // verus!
