use ogit::object::OObjectId;
use ogit::refs::{head_parent, head_start, start_of_text, tip_of_text};

const ID: &str = "0123456789abcdef0123456789ABCDEF0123456789abcdef0123456789abcdef";

#[test]
fn full_identifier_is_a_tip() {
    assert_eq!(ID.len(), 64);
    assert_eq!(tip_of_text(ID), Some(OObjectId(ID.to_string())));
}

#[test]
fn other_texts_are_no_tip() {
    assert_eq!(tip_of_text(""), None);
    assert_eq!(tip_of_text("ref: refs/heads/master"), None);
    assert_eq!(tip_of_text(&ID[1..]), None);
    assert_eq!(tip_of_text(&format!("{}0", ID)), None);
    assert_eq!(tip_of_text(&format!("{}g", &ID[1..])), None);
    assert_eq!(tip_of_text(&format!("{} ", &ID[1..])), None);
    assert_eq!(tip_of_text(&format!("/{}", &ID[1..])), None);
    assert_eq!(tip_of_text(&format!(":{}", &ID[1..])), None);
    assert_eq!(tip_of_text(&format!("@{}", &ID[1..])), None);
    assert_eq!(tip_of_text(&format!("G{}", &ID[1..])), None);
    assert_eq!(tip_of_text(&format!("`{}", &ID[1..])), None);
    assert_eq!(tip_of_text(&format!("\u{e9}{}", &ID[2..])), None);
    assert_eq!(tip_of_text(&format!("\u{e9}{}", &ID[1..])), None);
}

#[test]
fn head_parent_removes_the_white_space_around_the_identifier() {
    let content = format!("  {}\n", ID);
    assert_eq!(head_parent(&content), Some(OObjectId(ID.to_string())));
    assert_eq!(head_parent(ID), Some(OObjectId(ID.to_string())));
}

#[test]
fn head_parent_of_a_fresh_repository_is_none() {
    assert_eq!(head_parent("ref: refs/heads/master\n"), None);
    assert_eq!(head_parent(""), None);
    assert_eq!(head_parent(" \n"), None);
}

#[test]
fn head_start_is_the_trimmed_text() {
    assert_eq!(head_start("  abc def \n"), Some(OObjectId("abc def".to_string())));
    assert_eq!(head_start(ID), Some(OObjectId(ID.to_string())));
}

#[test]
fn head_start_of_blank_text_is_none() {
    assert_eq!(head_start(""), None);
    assert_eq!(head_start(" \t\r\n"), None);
}

#[test]
fn start_of_text_is_the_text_unless_empty() {
    assert_eq!(start_of_text(""), None);
    assert_eq!(start_of_text("abc"), Some(OObjectId("abc".to_string())));
    assert_eq!(start_of_text(" abc\n"), Some(OObjectId(" abc\n".to_string())));
}

#[test]
fn head_start_of_plain_text_is_the_text() {
    assert_eq!(head_start("abc"), Some(OObjectId("abc".to_string())));
}

#[test]
fn white_space_of_every_script_is_removed() {
    let content = "\u{9}\u{a}\u{b}\u{c}\u{d} \u{85}\u{a0}\u{1680}\u{2000}\u{2005}\u{200a}x y\u{2028}\u{2029}\u{202f}\u{205f}\u{3000}";
    assert_eq!(head_start(content), Some(OObjectId("x y".to_string())));
}

#[test]
fn what_is_no_white_space_stays() {
    for text in ["\u{200b}", "\u{180e}", "\u{feff}", "\u{8}", "\u{e}", "\u{1f}", "\u{7f}", "\u{2060}"] {
        assert_eq!(head_start(text), Some(OObjectId(text.to_string())));
    }
    assert_eq!(head_start(" \u{200b} "), Some(OObjectId("\u{200b}".to_string())));
}

fn listed_as_white_space(c: char) -> bool {
    let code = c as u32;
    (0x09..=0x0d).contains(&code)
        || code == 0x20
        || code == 0x85
        || code == 0xa0
        || code == 0x1680
        || (0x2000..=0x200a).contains(&code)
        || code == 0x2028
        || code == 0x2029
        || code == 0x202f
        || code == 0x205f
        || code == 0x3000
}

#[test]
fn exactly_the_listed_characters_are_removed() {
    let mut text = String::new();
    for code in 0..=0x10ffffu32 {
        if let Some(c) = char::from_u32(code) {
            text.clear();
            text.push(c);
            assert_eq!(head_start(&text).is_none(), listed_as_white_space(c), "U+{:04X}", code);
        }
    }
}
