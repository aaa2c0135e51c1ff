use kytea_tokenizer::pos::PoS;
use kytea_tokenizer::surface::Surface;
use kytea_tokenizer::tag::{TagIterator, Tags};

#[test]
fn test_tag_iter() {
    let mut it = TagIterator::from("");
    assert_eq!(it.next(), None);

    let mut it = TagIterator::from("abc");
    assert_eq!(it.next(), Some("abc"));
    assert_eq!(it.next(), None);

    let mut it = TagIterator::from("abc/");
    assert_eq!(it.next(), Some("abc"));
    assert_eq!(it.next(), None);

    let mut it = TagIterator::from("abc/def//ghi");
    assert_eq!(it.next(), Some("abc"));
    assert_eq!(it.next(), Some("def"));
    assert_eq!(it.next(), Some(""));
    assert_eq!(it.next(), Some("ghi"));
    assert_eq!(it.next(), None);
}

#[test]
fn test_tags() {
    type Test<'a> = (Surface<'a>, PoS, String);

    let mut tags = TagIterator::from("a/名詞");
    let tags = Test::from_tags(&mut tags);
    assert_eq!(tags, (Surface("a"), PoS::Noun, String::new()));

    let mut tags = TagIterator::from("a/名詞/b");
    let tags = Test::from_tags(&mut tags);
    assert_eq!(tags, (Surface("a"), PoS::Noun, String::from("b")));

    let mut tags = TagIterator::from("a/名詞/b/c");
    let tags = Test::from_tags(&mut tags);
    assert_eq!(tags, (Surface("a"), PoS::Noun, String::from("b")));

    let mut tags = TagIterator::from("a//b/c");
    let tags = Test::from_tags(&mut tags);
    assert_eq!(tags, (Surface("a"), PoS::Absent, String::from("b")));
}

#[test]
fn escaped_slash_stays_in_its_field() {
    let mut it = TagIterator::from("\\/a/b\\\\/c\\\\\\/d");
    assert_eq!(it.next(), Some("\\/a"));
    assert_eq!(it.next(), Some("b\\\\"));
    assert_eq!(it.next(), Some("c\\\\\\/d"));
    assert_eq!(it.next(), None);
}

#[test]
fn leading_slash_gives_an_empty_first_field() {
    let mut it = TagIterator::from("/名詞");
    assert_eq!(it.find_next_slash(), 0);
    assert_eq!(it.next(), Some(""));
    assert_eq!(it.next(), Some("名詞"));
    assert_eq!(it.next(), None);
}

#[test]
fn missing_fields_decode_to_defaults() {
    let mut tags = TagIterator::from("");
    let v = <(Surface, PoS, &str, String)>::from_tags(&mut tags);
    assert_eq!(v, (Surface(""), PoS::Absent, "", String::new()));
}

#[test]
fn tuples_of_every_width_take_fields_in_order() {
    let word = "a/b/c/d/e/f/g/h/i";
    let mut tags = TagIterator::from(word);
    <()>::from_tags(&mut tags);
    assert_eq!(<(&str,)>::from_tags(&mut tags), ("a",));
    assert_eq!(<(&str, &str)>::from_tags(&mut tags), ("b", "c"));
    assert_eq!(tags.next(), Some("d"));

    let mut tags = TagIterator::from(word);
    assert_eq!(<(&str, &str, &str)>::from_tags(&mut tags), ("a", "b", "c"));
    assert_eq!(<(&str, &str, &str, &str)>::from_tags(&mut tags), ("d", "e", "f", "g"));
    assert_eq!(<(&str, &str, &str, &str, &str)>::from_tags(&mut tags), ("h", "i", "", "", ""));

    let mut tags = TagIterator::from(word);
    assert_eq!(
        <(&str, &str, &str, &str, &str, &str)>::from_tags(&mut tags),
        ("a", "b", "c", "d", "e", "f")
    );
    let mut tags = TagIterator::from(word);
    assert_eq!(
        <(&str, &str, &str, &str, &str, &str, &str)>::from_tags(&mut tags),
        ("a", "b", "c", "d", "e", "f", "g")
    );
    let mut tags = TagIterator::from(word);
    assert_eq!(
        <(&str, &str, &str, &str, &str, &str, &str, &str)>::from_tags(&mut tags),
        ("a", "b", "c", "d", "e", "f", "g", "h")
    );
    assert_eq!(tags.next(), Some("i"));
}

#[test]
fn nested_tuples_share_the_fields() {
    let mut tags = TagIterator::from("a/動詞/x/y");
    let v = <((Surface, PoS), (String, &str))>::from_tags(&mut tags);
    assert_eq!(v, ((Surface("a"), PoS::Verb), (String::from("x"), "y")));
}
