use bear_to_markdown::links::{encode_link, LinkEscapes};
use percent_encoding::percent_decode_str;

fn path(items: &[&str]) -> Vec<String> {
    items.iter().map(|item| item.to_string()).collect()
}

#[test]
fn links_are_percent_encoded_by_component() {
    let escapes = LinkEscapes::new();
    assert_eq!(
        encode_link(&path(&["assets", "My Note (2)", "50% [x].png"]), &escapes),
        "assets/My%20Note%20%282%29/50%25%20%5Bx%5D.png"
    );
    assert_eq!(encode_link(&path(&["a#b?c<d>e"]), &escapes), "a%23b%3Fc%3Cd%3Ee");
    assert_eq!(encode_link(&path(&["\u{1}\u{7f}"]), &escapes), "%01%7F");
    assert_eq!(encode_link(&path(&["ö€"]), &escapes), "%C3%B6%E2%82%AC");
    assert_eq!(encode_link(&path(&["plain-_.~!$&'*+,;=:@\"\\^`{|}"]), &escapes), "plain-_.~!$&'*+,;=:@\"\\^`{|}");
    assert_eq!(encode_link(&Vec::new(), &escapes), "");
}

#[test]
fn links_decode_to_their_path() {
    let escapes = LinkEscapes::new();
    let link = encode_link(&path(&["assets", "a b", "100%(ö).pdf"]), &escapes);
    assert_eq!(percent_decode_str(&link).decode_utf8().unwrap(), "assets/a b/100%(ö).pdf");
    assert!(link.chars().all(|c| c.is_ascii_graphic() && !"()#?[]<>".contains(c)));
}
