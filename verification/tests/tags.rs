use bear_to_markdown::patterns::{find, take_apart, BEAR_TOKEN_PATTERN, MARKDOWN_LINK_PATTERN, TAG_PATTERN};
use bear_to_markdown::tags::{extract_tags, tags_of};

#[test]
fn tags_are_listed_in_order_of_first_appearance() {
    assert_eq!(extract_tags("#b text #a and (#c) #b"), vec!["b", "a", "c"]);
    assert_eq!(extract_tags("#work/projects"), vec!["work/projects"]);
    assert_eq!(extract_tags("#work/ #work"), vec!["work"]);
}

#[test]
fn only_tags_are_tags() {
    assert!(extract_tags("no tags").is_empty());
    assert!(extract_tags("a#b # heading ## two #-x #/y").is_empty());
    assert_eq!(extract_tags("line\n#tag"), vec!["tag"]);
    assert_eq!(extract_tags("#a-b_c/2,x"), vec!["a-b_c/2"]);
    assert_eq!(extract_tags("\u{3000}#größe #日本"), vec!["größe", "日本"]);
}

#[test]
fn tags_of_given_matches() {
    let text = "#x/ #y";
    let captures = vec![vec![(0, 3), (1, 3)], vec![(3, 6), (5, 6)]];
    assert_eq!(tags_of(&take_apart(text, &captures)), vec!["x", "y"]);
}

#[test]
fn a_text_is_taken_apart_and_can_be_put_together() {
    let text = "ä [image:x/y.png] and [file:z] end";
    let matches = find(BEAR_TOKEN_PATTERN, text);
    assert_eq!(matches.found.len(), 2);
    assert_eq!(matches.found[0].before, "ä ");
    assert_eq!(matches.found[0].groups, vec!["[image:x/y.png]", "image", "x/y.png"]);
    assert_eq!(matches.found[1].before, " and ");
    assert_eq!(matches.found[1].groups, vec!["[file:z]", "file", "z"]);
    assert_eq!(matches.rest, " end");
    let mut again = String::new();
    for found in &matches.found {
        again.push_str(&found.before);
        again.push_str(&found.groups[0]);
    }
    again.push_str(&matches.rest);
    assert_eq!(again, text);
}

#[test]
fn links_and_images_are_found() {
    let matches = find(MARKDOWN_LINK_PATTERN, "!![a[b](c) [](d)\n[x\n](y) [z]()");
    assert_eq!(matches.found.len(), 2);
    assert_eq!(matches.found[0].groups, vec!["![a[b](c)", "!", "a[b", "c"]);
    assert_eq!(matches.found[0].before, "!");
    assert_eq!(matches.found[1].groups, vec!["[](d)", "", "", "d"]);
}

#[test]
fn nothing_is_found_where_nothing_is() {
    assert!(find(BEAR_TOKEN_PATTERN, "[image:] [img:x] [file:a\nb]").found.is_empty());
    let none = find(TAG_PATTERN, "text");
    assert!(none.found.is_empty());
    assert_eq!(none.rest, "text");
}

#[test]
fn tags_of_joined_texts() {
    for (first, second) in [("#a text #b", "#b #c"), ("", "#x"), ("#end", "no tag"), ("a #", "tag #t/")] {
        let mut expected = extract_tags(first);
        for tag in extract_tags(second) {
            if !expected.contains(&tag) {
                expected.push(tag);
            }
        }
        assert_eq!(extract_tags(&format!("{first}\n{second}")), expected);
    }
}
