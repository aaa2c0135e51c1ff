use kytea_tokenizer::{TagIterator, WordIterator, Words};

fn strings(alphabet: &[char], max_len: usize) -> Vec<String> {
    let mut all = vec![String::new()];
    let mut last = vec![String::new()];
    for _ in 0..max_len {
        let mut next = Vec::new();
        for s in &last {
            for c in alphabet {
                let mut t = s.clone();
                t.push(*c);
                next.push(t);
            }
        }
        all.extend(next.iter().cloned());
        last = next;
    }
    all
}

fn split_by_parity(line: &str, delim: u8, keep_empty: bool) -> Vec<&str> {
    let bytes = line.as_bytes();
    let mut out = Vec::new();
    let mut start = 0;
    let mut run = 0;
    for (i, &c) in bytes.iter().enumerate() {
        if c == delim && run % 2 == 0 {
            if keep_empty || start < i {
                out.push(&line[start..i]);
            }
            start = i + 1;
        }
        run = if c == b'\\' { run + 1 } else { 0 };
    }
    if start < bytes.len() {
        out.push(&line[start..]);
    }
    out
}

fn forward(s: &str) -> Vec<&str> {
    let mut words = Words::from(s);
    let mut out = Vec::new();
    while let Some(w) = words.next() {
        out.push(w);
    }
    out
}

fn backward(s: &str) -> Vec<&str> {
    let mut words = Words::from(s);
    let mut out = Vec::new();
    while let Some(w) = words.next_back() {
        out.push(w);
    }
    out.reverse();
    out
}

#[test]
fn every_short_line_splits_by_parity_from_both_ends() {
    for s in strings(&['a', '\\', '\t', '猫'], 7) {
        let expected = split_by_parity(&s, b'\t', false);
        assert_eq!(forward(&s), expected, "{:?}", s);
        assert_eq!(backward(&s), expected, "{:?}", s);
    }
}

#[test]
fn every_short_line_draws_alike_when_ends_alternate() {
    for s in strings(&['a', '\\', '\t'], 7) {
        let expected = split_by_parity(&s, b'\t', false);
        let mut words = Words::from(s.as_str());
        let mut front = Vec::new();
        let mut back = Vec::new();
        let mut turn = false;
        loop {
            turn = !turn;
            let drawn = if turn { words.next() } else { words.next_back() };
            match drawn {
                Some(w) if turn => front.push(w),
                Some(w) => back.push(w),
                None => break,
            }
        }
        back.reverse();
        front.extend(back);
        assert_eq!(front, expected, "{:?}", s);
    }
}

#[test]
fn every_short_text_flattens_its_lines() {
    for s in strings(&['a', '\\', '\t', '\n', '\r'], 6) {
        let mut expected = Vec::new();
        for line in s.lines() {
            expected.extend(split_by_parity(line, b'\t', false));
        }
        let mut it = WordIterator::<&str>::from_lines(&s);
        let mut got = Vec::new();
        while it.next().is_some() {
            let from = it.offset_last_consumed;
            got.push(&s[from..from + it.len_last_consumed]);
        }
        assert_eq!(got, expected, "{:?}", s);

        let mut it = WordIterator::<&str>::from_lines(&s);
        let mut back = Vec::new();
        while it.next_back().is_some() {
            let from = it.offset_last_consumed;
            back.push(&s[from..from + it.len_last_consumed]);
        }
        back.reverse();
        assert_eq!(back, expected, "{:?}", s);
    }
}

#[test]
fn every_short_word_splits_into_its_fields() {
    for s in strings(&['a', '\\', '/', '猫'], 7) {
        let expected = split_by_parity(&s, b'/', true);
        let mut it = TagIterator::from(s.as_str());
        let mut got = Vec::new();
        while let Some(f) = it.next() {
            got.push(f);
        }
        assert_eq!(got, expected, "{:?}", s);
    }
}

#[test]
fn every_short_line_rejoins_to_the_same_words() {
    for s in strings(&['a', '\\', '\t'], 7) {
        let first = forward(&s);
        let joined = first.join("\t");
        assert_eq!(forward(&joined), first, "{:?}", s);
    }
}
