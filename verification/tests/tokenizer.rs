use kytea_tokenizer::tokenizer::{
    advance_token, set_token, ParseOnly, ParseWithFilter, Token, TokenStreamParseOnly,
    TokenStreamParseWithFilter,
};
use kytea_tokenizer::{PoS, Surface, WordIterator};

fn token(offset_from: usize, offset_to: usize, position: usize, text: &str) -> Token {
    Token {
        offset_from,
        offset_to,
        position,
        text: text.to_string(),
    }
}

#[test]
fn parse_only() {
    let mut stream = TokenStreamParseOnly::from_tokenized_text("a");
    assert!(stream.advance_token().is_continue());
    assert_eq!(&stream.current_token, &token(0, 1, 0, "a"));
    assert!(stream.advance_token().is_break());

    let mut stream = TokenStreamParseOnly::from_tokenized_text("a/記号/Ａ");
    assert!(stream.advance_token().is_continue());
    assert_eq!(&stream.current_token, &token(0, 12, 0, "a"));
    assert!(stream.advance_token().is_break());

    let mut stream = TokenStreamParseOnly::from_tokenized_text("a/記号/Ａ\tb/記号/Ｂ");
    assert!(stream.advance_token().is_continue());
    assert_eq!(&stream.current_token, &token(0, 12, 0, "a"));
    assert!(stream.advance_token().is_continue());
    assert_eq!(&stream.current_token, &token(13, 25, 1, "b"));
    assert!(stream.advance_token().is_break());
}

#[test]
fn default_token_has_no_position() {
    assert_eq!(Token::default(), token(0, 0, usize::MAX, ""));
    let stream = TokenStreamParseOnly::from_tokenized_text("a");
    assert_eq!(stream.current_token, Token::default());
}

#[test]
fn offsets_cut_the_word_out_of_the_text() {
    let text = "\n吾輩/名詞\tは/助詞\r\n\t猫\\\t/名詞/ねこ\n";
    let mut stream = ParseOnly.token_stream(text);
    let mut seen = Vec::new();
    while stream.advance_token().is_continue() {
        let t = &stream.current_token;
        seen.push((t.position, &text[t.offset_from..t.offset_to], t.text.clone()));
    }
    assert_eq!(
        seen,
        vec![
            (0, "吾輩/名詞", String::from("吾輩")),
            (1, "は/助詞", String::from("は")),
            (2, "猫\\\t/名詞/ねこ", String::from("猫\\\t")),
        ]
    );
    assert_eq!(stream.current_token.position, 2);
}

#[test]
fn set_token_overwrites_the_text() {
    let mut t = token(1, 2, 3, "something long");
    set_token(&mut t, 7, Surface("猫"), 10, 9);
    assert_eq!(t, token(10, 19, 7, "猫"));
}

#[test]
fn advance_token_hands_back_the_tags() {
    let mut it = WordIterator::<(Surface, (PoS, String))>::from_lines("a/動詞/x\tb");
    let mut count = 0usize;
    let mut t = Token::default();
    let tags = advance_token(&mut it, &mut count, &mut t);
    assert_eq!(tags.continue_value(), Some((PoS::Verb, String::from("x"))));
    assert_eq!((count, &t), (1, &token(0, 10, 0, "a")));
    let tags = advance_token(&mut it, &mut count, &mut t);
    assert_eq!(tags.continue_value(), Some((PoS::Absent, String::new())));
    assert_eq!((count, &t), (2, &token(11, 12, 1, "b")));
    assert!(advance_token(&mut it, &mut count, &mut t).is_break());
    assert_eq!((count, &t), (2, &token(11, 12, 1, "b")));
}

#[test]
fn filtered_words_take_no_position() {
    let text = "a/名詞\t /補助記号\tb/動詞\n\\\t/補助記号\tc/名詞\t /補助記号";
    let mut stream = TokenStreamParseWithFilter::from_tokenized_text(
        text,
        |item: &(Surface, ())| !item.0.is_ascii_whitespace(),
    );
    assert!(stream.advance_token().is_continue());
    assert_eq!(&stream.current_token, &token(0, 8, 0, "a"));
    assert!(stream.advance_token().is_continue());
    assert_eq!(&stream.current_token, &token(24, 32, 1, "b"));
    assert!(stream.advance_token().is_continue());
    assert_eq!(&stream.current_token, &token(49, 57, 2, "c"));
    assert!(stream.advance_token().is_break());
    assert_eq!(&stream.current_token, &token(49, 57, 2, "c"));
    assert!(stream.advance_token().is_break());
}

#[test]
fn filter_sees_the_decoded_tags() {
    let text = "走る/動詞\t猫/名詞\t犬/名詞/いぬ";
    let mut stream = TokenStreamParseWithFilter::with_tags(
        text,
        |item: &(Surface, (PoS, &str))| item.1 .0 == PoS::Noun,
        (PoS::Absent, ""),
    );
    assert_eq!(stream.tags, (PoS::Absent, ""));
    assert!(stream.advance_token().is_continue());
    assert_eq!(&stream.current_token, &token(14, 24, 0, "猫"));
    assert_eq!(stream.tags, (PoS::Noun, ""));
    assert!(stream.advance_token().is_continue());
    assert_eq!(&stream.current_token, &token(25, 42, 1, "犬"));
    assert_eq!(stream.tags, (PoS::Noun, "いぬ"));
    assert!(stream.advance_token().is_break());
}

#[test]
fn filter_maker_builds_the_same_stream() {
    let maker = ParseWithFilter(|item: &(Surface, ())| !item.0.is_empty());
    let mut stream = maker.token_stream("/名詞\tb");
    assert!(stream.advance_token().is_continue());
    assert_eq!(&stream.current_token, &token(8, 9, 0, "b"));
    assert!(stream.advance_token().is_break());
}

#[test]
fn repeat_maps_the_vocabulary() {
    let names = PoS::repeat(|p| p.to_prim());
    assert_eq!(names, (0u8..22).collect::<Vec<u8>>());
}
