use kytea_tokenizer::pos::PoS;
use kytea_tokenizer::surface::Surface;
use kytea_tokenizer::text::{checked_text, InvalidUtf8};
use kytea_tokenizer::word::Word;

fn assert_pushed_word_eq(word: &str, expected: &str) {
    let mut s = String::new();
    let word = Word::from(word);
    word.pushed_to(&mut s);
    assert_eq!(s, expected);
}

#[test]
fn test_word() {
    assert_pushed_word_eq("", "");
    assert_pushed_word_eq(" /補助記号", "");
    assert_pushed_word_eq("\\\t/補助記号", "");

    assert_pushed_word_eq("吾輩/名詞", "吾輩/名詞");
    assert_pushed_word_eq("吾輩/名詞/わがはい", "吾輩/名詞");
    assert_pushed_word_eq("吾輩/", "吾輩/");
    assert_pushed_word_eq("吾輩/名詞/", "吾輩/名詞");
    assert_pushed_word_eq("/名詞/わがはい", "/名詞");

    assert_pushed_word_eq("\\/吾輩/名詞/", "\\/吾輩/名詞");
    assert_pushed_word_eq("吾\\\\/輩/名詞/", "吾\\\\/輩");
    assert_pushed_word_eq("吾\\\\\\/輩/名詞/", "吾\\\\\\/輩/名詞");
}

fn assert_word_eq(word: &str, expected_surface: &str, expected_pos: Option<PoS>) {
    let (surface, pos) = Word::from(word).surface_and_pos();
    assert_eq!(surface.as_str(), expected_surface);
    assert_eq!(pos, expected_pos);
}

#[test]
fn test_get_surface_and_pos() {
    assert_word_eq("", "", None);
    assert_word_eq("吾輩", "吾輩", None);
    assert_word_eq("吾輩/", "吾輩", None);
    assert_word_eq("吾輩/名詞", "吾輩", Some(PoS::Noun));
    assert_word_eq("/名詞", "", Some(PoS::Noun));
    assert_word_eq("吾輩/名詞/", "吾輩", Some(PoS::Noun));
    assert_word_eq("吾輩/IllegalPoS", "吾輩", None);
}

#[test]
fn pushed_to_appends_behind_what_is_there() {
    let mut s = String::from("x");
    Word::from("吾輩/名詞/わがはい").pushed_to(&mut s);
    Word::from(" /補助記号").pushed_to(&mut s);
    Word::from("猫/名詞").pushed_to(&mut s);
    assert_eq!(s, "x吾輩/名詞猫/名詞");
}

#[test]
fn find_next_slash_starts_anew_at_start() {
    let w = Word::from("a\\/b/c/d");
    assert_eq!(w.find_next_slash(0), 4);
    assert_eq!(w.find_next_slash(2), 2);
    assert_eq!(w.find_next_slash(5), 6);
    assert_eq!(w.find_next_slash(7), 8);
    assert_eq!(w.find_next_slash(8), 8);
    assert_eq!(w.find_next_slash(100), 8);
    assert_eq!(w.find_end_of_surface_and_pos(), (4, 6));
    assert_eq!(Word::from("abc").find_end_of_surface_and_pos(), (3, 3));
    assert_eq!(Word::from("").find_end_of_surface_and_pos(), (0, 0));
}

#[test]
fn blank_words_are_told_by_their_first_bytes() {
    assert!(Word::from(" /補助記号").is_ascii_whitespace());
    assert!(Word::from("\\\t/補助記号").is_ascii_whitespace());
    assert!(!Word::from("\t").is_ascii_whitespace());
    assert!(!Word::from("\\").is_ascii_whitespace());
    assert!(!Word::from("").is_ascii_whitespace());
    assert!(!Word::from("a ").is_ascii_whitespace());
}

#[test]
fn surface_knows_its_bytes() {
    let s = Surface("猫a");
    assert_eq!(s.len(), 4);
    assert!(!s.is_empty());
    assert_eq!(s.as_str(), "猫a");
    assert_eq!(s.as_bytes(), "猫a".as_bytes());
    assert!(Surface("").is_empty());
    assert!(!s.is_ascii_whitespace());
    assert!(Surface(" ").is_ascii_whitespace());
    assert!(Surface("\t").is_ascii_whitespace());
    assert!(Surface("\n").is_ascii_whitespace());
    assert!(Surface("\r").is_ascii_whitespace());
    assert!(Surface("\x0c").is_ascii_whitespace());
    assert!(Surface("\\\t").is_ascii_whitespace());
    assert!(!Surface("\\").is_ascii_whitespace());
    assert!(!Surface("").is_ascii_whitespace());
}

#[test]
fn checked_text_turns_down_broken_bytes() {
    assert_eq!(checked_text("猫/名詞\ta".as_bytes()), Ok("猫/名詞\ta"));
    assert_eq!(checked_text(b""), Ok(""));
    assert_eq!(checked_text(&[0x61, 0xff, 0x62]), Err(InvalidUtf8));
    assert_eq!(checked_text(&[0xe7, 0x8c]), Err(InvalidUtf8));
    assert_eq!(checked_text(&[0xc0, 0x80]), Err(InvalidUtf8));
    assert_eq!(checked_text(&[0xed, 0xa0, 0x80]), Err(InvalidUtf8));
}
