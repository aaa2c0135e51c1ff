use kytea_tokenizer::{PoS, Surface, WordIterator};

fn assert_surface_and_pos(
    res: Option<(Surface<'_>, PoS)>,
    expected_surface: &str,
    expected_pos: PoS,
) {
    assert_eq!(res, Some((Surface(expected_surface), expected_pos)));
}

#[test]
fn mod_word_iterator() {
    let words = "\na/名詞\tb/形容詞\nc/d\n\ne/UNK\n";
    let mut it = WordIterator::<(Surface, PoS)>::from_lines(words);
    assert_surface_and_pos(it.next(), "a", PoS::Noun);
    assert_eq!(it.len_last_consumed, 8);
    assert_surface_and_pos(it.next(), "b", PoS::Adjective);
    assert_eq!(it.len_last_consumed, 11);
    assert_surface_and_pos(it.next(), "c", PoS::Absent);
    assert_eq!(it.len_last_consumed, 3);
    assert_surface_and_pos(it.next(), "e", PoS::UNK);
    assert_eq!(it.len_last_consumed, 5);
    assert!(it.next().is_none());

    let mut it = WordIterator::<Surface>::from_lines(words);
    assert_eq!(it.next(), Some(Surface("a")));
    assert_eq!(it.len_last_consumed, 8);
    assert_eq!(it.next(), Some(Surface("b")));
    assert_eq!(it.len_last_consumed, 11);
    assert_eq!(it.next(), Some(Surface("c")));
    assert_eq!(it.len_last_consumed, 3);
    assert_eq!(it.next(), Some(Surface("e")));
    assert_eq!(it.len_last_consumed, 5);
    assert!(it.next().is_none());
}

#[test]
fn word_iterator_from_the_back() {
    let words = "\na/名詞\tb/形容詞\nc/d\n\ne/UNK\n";
    let mut it = WordIterator::<(Surface, PoS)>::from_lines(words);
    assert_surface_and_pos(it.next_back(), "e", PoS::UNK);
    assert_eq!(it.len_last_consumed, 5);
    assert_eq!(it.offset_last_consumed, 27);
    assert_surface_and_pos(it.next(), "a", PoS::Noun);
    assert_eq!(it.offset_last_consumed, 1);
    assert_surface_and_pos(it.next_back(), "c", PoS::Absent);
    assert_surface_and_pos(it.next_back(), "b", PoS::Adjective);
    assert_eq!(it.offset_last_consumed, 10);
    assert!(it.next_back().is_none());
    assert!(it.next().is_none());
}

#[test]
fn escape_does_not_reach_over_a_line_end() {
    let text = "a\\\n\tb\\\r\n\tc";
    let mut it = WordIterator::<&str>::from_lines(text);
    assert_eq!(it.next(), Some("a\\"));
    assert_eq!(it.next(), Some("b\\"));
    assert_eq!(it.next(), Some("c"));
    assert_eq!(it.next(), None);

    let mut it = WordIterator::<&str>::from_lines(text);
    assert_eq!(it.next_back(), Some("c"));
    assert_eq!(it.next_back(), Some("b\\"));
    assert_eq!(it.next_back(), Some("a\\"));
    assert_eq!(it.next_back(), None);
}

#[test]
fn word_iterator_agrees_with_lines_of_words() {
    let texts = [
        "",
        "\n",
        "\r\n",
        "a\r\nb\rc\n\rd",
        "x\\\ty\tz\\\\\t\n\n\t\tw\\\r\nq\\\t\r\n",
        "\t\n\t\r\n\t",
        "a\r",
        "a\r\r\n\r",
    ];
    for text in texts {
        let mut expected: Vec<&str> = Vec::new();
        for line in text.lines() {
            let mut words = kytea_tokenizer::Words::from(line);
            while let Some(w) = words.next() {
                expected.push(w);
            }
        }
        let mut it = WordIterator::<()>::from_lines(text);
        let mut got: Vec<&str> = Vec::new();
        while it.next().is_some() {
            let from = it.offset_last_consumed;
            got.push(&text[from..from + it.len_last_consumed]);
        }
        assert_eq!(got, expected, "{:?}", text);

        let mut it = WordIterator::<()>::from_lines(text);
        let mut back: Vec<&str> = Vec::new();
        while it.next_back().is_some() {
            let from = it.offset_last_consumed;
            back.push(&text[from..from + it.len_last_consumed]);
        }
        back.reverse();
        assert_eq!(back, expected, "{:?}", text);
    }
}

#[test]
fn clone_with_tags_keeps_the_place() {
    let mut it = WordIterator::<Surface>::from_lines("a/名詞\tb/動詞\tc/副詞");
    assert_eq!(it.next(), Some(Surface("a")));
    let mut other = it.clone_with_tags::<(Surface, PoS)>();
    assert_eq!(other.len_last_consumed, 0);
    assert_eq!(other.next(), Some((Surface("b"), PoS::Verb)));
    assert_eq!(it.len_last_consumed, 8);
    assert_eq!(it.next(), Some(Surface("b")));
    let mut same = it.clone();
    assert_eq!(same.len_last_consumed, it.len_last_consumed);
    assert_eq!(same.next(), Some(Surface("c")));
    assert_eq!(it.next(), Some(Surface("c")));
}
