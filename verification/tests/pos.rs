use kytea_tokenizer::pos::{ParseError, PoS, PosIterator};

#[test]
fn pos_from_str() {
    assert_eq!(Ok(PoS::Noun), "名詞".parse());
}

#[test]
fn pos_to_string() {
    assert_eq!(PoS::Noun.to_string(), "名詞");
}

#[test]
fn every_name_parses_back() {
    let mut it = PoS::iter();
    let mut n = 0u8;
    while let Some(p) = it.next() {
        assert_eq!(PoS::parse(p.as_str()), Some(p));
        assert_eq!(p.to_prim(), n);
        assert_eq!(PoS::from_prim(n), p);
        n += 1;
    }
    assert_eq!(n, 22);
}

#[test]
fn unknown_names_are_rejected() {
    assert_eq!("IllegalPoS".parse::<PoS>(), Err(ParseError::VariantNotFound));
    assert_eq!(PoS::parse(""), None);
    assert_eq!(PoS::parse("名"), None);
    assert_eq!(PoS::parse("名詞 "), None);
}

#[test]
fn sentinels_have_names_too() {
    assert_eq!(PoS::parse("UNK"), Some(PoS::UNK));
    assert_eq!(PoS::parse("None"), Some(PoS::Absent));
    assert_eq!(PoS::parse("URL"), Some(PoS::URL));
    assert_eq!(PoS::default(), PoS::Absent);
}

#[test]
fn from_prim_falls_back_behind_the_vocabulary() {
    assert_eq!(PoS::from_prim(0), PoS::Noun);
    assert_eq!(PoS::from_prim(20), PoS::UNK);
    assert_eq!(PoS::from_prim(21), PoS::Absent);
    assert_eq!(PoS::from_prim(22), PoS::Absent);
    assert_eq!(PoS::from_prim(255), PoS::Absent);
}

#[test]
fn append_to_writes_slash_and_name() {
    let mut s = String::from("猫");
    PoS::Noun.append_to(&mut s);
    assert_eq!(s, "猫/名詞");
    PoS::AuxiliarySymbol.append_to(&mut s);
    assert_eq!(s, "猫/名詞/補助記号");
}

#[test]
fn iterator_walks_the_vocabulary_in_order() {
    let mut it = PosIterator::new();
    assert_eq!(it.next(), Some(PoS::Noun));
    assert_eq!(it.next(), Some(PoS::Verb));
    assert_eq!(it.next(), Some(PoS::Suffix));
    let mut last = PoS::Suffix;
    while let Some(p) = it.next() {
        assert_eq!(last.next_pos(), Some(p));
        last = p;
    }
    assert_eq!(last, PoS::Absent);
    assert_eq!(last.next_pos(), None);
    assert_eq!(it.next(), None);
}
