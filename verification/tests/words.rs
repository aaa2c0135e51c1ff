use kytea_tokenizer::words::Words;

#[test]
fn words_test_words() {
    let s = "";
    let mut words = Words::from(s);
    assert_eq!(words.next(), None);

    let s = "吾輩/名詞";
    let mut words = Words::from(s);
    assert_eq!(words.next(), Some("吾輩/名詞"));
    assert_eq!(words.next(), None);

    let s = "吾輩/名詞\t";
    let mut words = Words::from(s);
    assert_eq!(words.next(), Some("吾輩/名詞"));
    assert_eq!(words.next(), None);

    let s = "吾輩/名詞\tは/助詞\t\t猫/名詞\t /補助記号";
    let mut words = Words::from(s);
    assert_eq!(words.next(), Some("吾輩/名詞"));
    assert_eq!(words.next(), Some("は/助詞"));
    assert_eq!(words.next(), Some("猫/名詞"));
    assert_eq!(words.next(), Some(" /補助記号"));
    assert_eq!(words.next(), None);

    let s = "ab\t\\\t/補助記号\t\\/\\\t\t\\\\\\\t/\\\\\t";
    let mut words = Words::from(s);
    assert_eq!(words.next(), Some("ab"));
    assert_eq!(words.next(), Some("\\\t/補助記号"));
    assert_eq!(words.next(), Some("\\/\\\t"));
    assert_eq!(words.next(), Some("\\\\\\\t/\\\\"));
    assert_eq!(words.next(), None);
}

#[test]
fn words_test_words_rev() {
    let s = "";
    let mut words = Words::from(s);
    assert_eq!(words.next_back(), None);

    let s = "吾輩/名詞\tは/助詞\t\t猫/名詞\t /補助記号";
    let mut words = Words::from(s);
    assert_eq!(words.next_back(), Some(" /補助記号"));
    assert_eq!(words.next_back(), Some("猫/名詞"));
    assert_eq!(words.next_back(), Some("は/助詞"));
    assert_eq!(words.next_back(), Some("吾輩/名詞"));
    assert_eq!(words.next_back(), None);

    let s = "\t\tab\t\\\t/補助記号\t\\/\\\t\t\\\\\\\t/\\\\\t";
    let mut words = Words::from(s);
    assert_eq!(words.next_back(), Some("\\\\\\\t/\\\\"));
    assert_eq!(words.next_back(), Some("\\/\\\t"));
    assert_eq!(words.next_back(), Some("\\\t/補助記号"));
    assert_eq!(words.next_back(), Some("ab"));
    assert_eq!(words.next_back(), None);

    let s = "\ta";
    let mut words = Words::from(s);
    assert_eq!(words.next_back(), Some("a"));
    assert_eq!(words.next_back(), None);

    let s = "\\\ta";
    let mut words = Words::from(s);
    assert_eq!(words.next_back(), Some("\\\ta"));
    assert_eq!(words.next_back(), None);

    let s = "\\\\\ta";
    let mut words = Words::from(s);
    assert_eq!(words.next_back(), Some("a"));
    assert_eq!(words.next_back(), Some("\\\\"));
    assert_eq!(words.next_back(), None);
}

#[test]
fn words_test_words_mixed() {
    let s = "吾輩/名詞\tは/助詞\t\t猫/名詞\t /補助記号";
    let mut words = Words::from(s);
    assert_eq!(words.next(), Some("吾輩/名詞"));
    assert_eq!(words.next_back(), Some(" /補助記号"));
    assert_eq!(words.next(), Some("は/助詞"));
    assert_eq!(words.next_back(), Some("猫/名詞"));
    assert_eq!(words.next(), None);
    assert_eq!(words.next_back(), None);
}

fn forward(s: &str) -> Vec<&str> {
    let mut words = Words::from(s);
    let mut out = Vec::new();
    while let Some(w) = words.next() {
        out.push(w);
    }
    out
}

fn backward(s: &str) -> Vec<&str> {
    let mut words = Words::from(s);
    let mut out = Vec::new();
    while let Some(w) = words.next_back() {
        out.push(w);
    }
    out
}

#[test]
fn backward_is_forward_reversed() {
    let samples = [
        "",
        "\t",
        "\t\t\t",
        "a",
        "a\\",
        "a\\\t",
        "a\\\\\t",
        "a\\\\\\\t\tb",
        "\\ab\\\t",
        "\\ab\\\tc\t\\",
        "x\\\ty\\\\\tz\\\\\\\tw",
        "\\\t\\\t\\\t",
        "\t\\\\\t\\\t\t",
        "ab\t\\\t/補助記号\t\\/\\\t\t\\\\\\\t/\\\\\t",
    ];
    for s in samples {
        let mut back = backward(s);
        back.reverse();
        assert_eq!(forward(s), back, "{:?}", s);
    }
}

#[test]
fn escape_run_of_the_word_alone_counts() {
    assert_eq!(forward("\\ab\\\tc"), vec!["\\ab\\\tc"]);
    assert_eq!(backward("\\ab\\\tc"), vec!["\\ab\\\tc"]);
    assert_eq!(forward("\\ab\\\\\tc"), vec!["\\ab\\\\", "c"]);
    assert_eq!(backward("\\ab\\\\\tc"), vec!["c", "\\ab\\\\"]);
}

#[test]
fn trailing_escape_is_kept() {
    assert_eq!(forward("a\\"), vec!["a\\"]);
    assert_eq!(backward("a\\"), vec!["a\\"]);
}

#[test]
fn empty_and_delimiters_only() {
    assert_eq!(forward(""), Vec::<&str>::new());
    assert_eq!(backward(""), Vec::<&str>::new());
    assert_eq!(forward("\t\t\t\t"), Vec::<&str>::new());
    assert_eq!(backward("\t\t\t\t"), Vec::<&str>::new());
}

#[test]
fn any_interleaving_draws_from_one_sequence() {
    let s = "a\tb\\\tc\t\td\\\\\te\tf\\";
    let all = forward(s);
    assert_eq!(all, vec!["a", "b\\\tc", "d\\\\", "e", "f\\"]);
    for mask in 0u32..32 {
        let mut words = Words::from(s);
        let mut front = Vec::new();
        let mut back = Vec::new();
        for step in 0..5 {
            if mask & (1 << step) != 0 {
                front.push(words.next().unwrap());
            } else {
                back.push(words.next_back().unwrap());
            }
        }
        assert_eq!(words.next(), None);
        assert_eq!(words.next_back(), None);
        back.reverse();
        front.extend(back);
        assert_eq!(front, all);
    }
}

#[test]
fn rejoined_words_split_again_to_themselves() {
    let samples = [
        "吾輩/名詞\tは/助詞\t\t猫/名詞\t /補助記号",
        "ab\t\\\t/補助記号\t\\/\\\t\t\\\\\\\t/\\\\\t",
        "\t\ta\t\t\tb\\",
    ];
    for s in samples {
        let first = forward(s);
        let joined = first.join("\t");
        assert_eq!(forward(&joined), first);
    }
}

#[test]
fn len_and_is_empty_follow_the_cursor() {
    let mut words = Words::from("ab\tcd");
    assert_eq!(words.len(), 5);
    assert!(!words.is_empty());
    assert_eq!(words.next(), Some("ab"));
    assert_eq!(words.len(), 3);
    assert_eq!(words.next_back(), Some("cd"));
    assert_eq!(words.len(), 1);
    assert_eq!(words.next(), None);
    assert!(words.is_empty());
}

#[test]
fn spans_are_offsets_into_the_text() {
    let mut words = Words::from("\tab\t\tcd\t");
    assert_eq!(words.find_sow(), 1);
    assert_eq!(words.next_span(), Some((1, 3)));
    assert_eq!(words.rfind_eow(), Some(7));
    assert_eq!(words.next_back_span(), Some((5, 7)));
    assert_eq!(words.next_span(), None);
}

#[test]
fn line_mode_splits_at_line_endings() {
    let mut words = Words::from_lines("a\\\nb\r\nc\rd\n\n\te\\\t\r\n");
    assert_eq!(words.next(), Some("a\\"));
    assert_eq!(words.next(), Some("b"));
    assert_eq!(words.next_back(), Some("e\\\t"));
    assert_eq!(words.next_back(), Some("c\rd"));
    assert_eq!(words.next_back(), None);
    assert_eq!(words.next(), None);
}
