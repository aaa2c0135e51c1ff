//! The closed vocabulary of part-of-speech tags.

use crate::tag::{TagIterator, Tags};
use crate::text::str_eq;
use vstd::prelude::*;
use vstd::string::*;
use vstd::utf8::*;

verus! {

/// How many tags the vocabulary holds, the two that stand for a missing
/// category included.
pub const POS_COUNT: u8 = 22;

/// A part of speech as the analyzer names it. The order of the variants is
/// the order of the vocabulary.
#[derive(Debug, PartialEq, Eq, Clone, Copy, PartialOrd, Ord, Hash, Structural)]
pub enum PoS {
    /// `名詞`: nouns.
    Noun,
    /// `動詞`: verbs.
    Verb,
    /// `接尾辞`: suffixes.
    Suffix,
    /// `形容詞`: adjectives.
    Adjective,
    /// `代名詞`: pronouns.
    Pronoun,
    /// `副詞`: adverbs.
    Adverb,
    /// `形状詞`: adjectival nouns.
    AdjectivalNoun,
    /// `連体詞`: adnominals.
    Adnominal,
    /// `接頭辞`: prefixes.
    Prefix,
    /// `接続詞`: conjunctions.
    Conjunction,
    /// `感動詞`: interjections.
    Interjection,
    /// `助詞`: particles.
    Particle,
    /// `補助記号`: punctuation and other auxiliary symbols.
    AuxiliarySymbol,
    /// `語尾`: inflectional endings.
    Ending,
    /// `助動詞`: auxiliary verbs.
    AuxiliaryVerb,
    /// `URL`: addresses of the web.
    URL,
    /// `記号`: symbols.
    Symbol,
    /// `空白`: blanks.
    Whitespace,
    /// `言いよどみ`: hesitation sounds.
    Filler,
    /// `英単語`: English words.
    EnglishWord,
    /// `UNK`: words the analyzer does not know.
    UNK,
    /// `None`: no tag, or a tag outside the vocabulary.
    Absent,
}

/// The failure of reading a tag: no entry of the vocabulary has that name.
#[derive(Debug, PartialEq, Eq, Clone, Copy)]
pub enum ParseError {
    /// The text names no tag.
    VariantNotFound,
}

impl Default for PoS {
    fn default() -> (r: Self)
        ensures
            r == PoS::Absent,
    {
        PoS::Absent
    }
}

impl PoS {
    /// The place of the tag in the vocabulary, counted from zero.
    pub open spec fn ordinal(self) -> nat {
        match self {
            PoS::Noun => 0,
            PoS::Verb => 1,
            PoS::Suffix => 2,
            PoS::Adjective => 3,
            PoS::Pronoun => 4,
            PoS::Adverb => 5,
            PoS::AdjectivalNoun => 6,
            PoS::Adnominal => 7,
            PoS::Prefix => 8,
            PoS::Conjunction => 9,
            PoS::Interjection => 10,
            PoS::Particle => 11,
            PoS::AuxiliarySymbol => 12,
            PoS::Ending => 13,
            PoS::AuxiliaryVerb => 14,
            PoS::URL => 15,
            PoS::Symbol => 16,
            PoS::Whitespace => 17,
            PoS::Filler => 18,
            PoS::EnglishWord => 19,
            PoS::UNK => 20,
            PoS::Absent => 21,
        }
    }

    /// The tag at place `n` of the vocabulary; the last one for every
    /// place behind it.
    pub open spec fn at(n: nat) -> PoS {
        if n == 0 {
            PoS::Noun
        } else if n == 1 {
            PoS::Verb
        } else if n == 2 {
            PoS::Suffix
        } else if n == 3 {
            PoS::Adjective
        } else if n == 4 {
            PoS::Pronoun
        } else if n == 5 {
            PoS::Adverb
        } else if n == 6 {
            PoS::AdjectivalNoun
        } else if n == 7 {
            PoS::Adnominal
        } else if n == 8 {
            PoS::Prefix
        } else if n == 9 {
            PoS::Conjunction
        } else if n == 10 {
            PoS::Interjection
        } else if n == 11 {
            PoS::Particle
        } else if n == 12 {
            PoS::AuxiliarySymbol
        } else if n == 13 {
            PoS::Ending
        } else if n == 14 {
            PoS::AuxiliaryVerb
        } else if n == 15 {
            PoS::URL
        } else if n == 16 {
            PoS::Symbol
        } else if n == 17 {
            PoS::Whitespace
        } else if n == 18 {
            PoS::Filler
        } else if n == 19 {
            PoS::EnglishWord
        } else if n == 20 {
            PoS::UNK
        } else {
            PoS::Absent
        }
    }

    /// The name of the tag in the analyzer's output.
    pub open spec fn name(self) -> Seq<char> {
        match self {
            PoS::Noun => "名詞"@,
            PoS::Verb => "動詞"@,
            PoS::Suffix => "接尾辞"@,
            PoS::Adjective => "形容詞"@,
            PoS::Pronoun => "代名詞"@,
            PoS::Adverb => "副詞"@,
            PoS::AdjectivalNoun => "形状詞"@,
            PoS::Adnominal => "連体詞"@,
            PoS::Prefix => "接頭辞"@,
            PoS::Conjunction => "接続詞"@,
            PoS::Interjection => "感動詞"@,
            PoS::Particle => "助詞"@,
            PoS::AuxiliarySymbol => "補助記号"@,
            PoS::Ending => "語尾"@,
            PoS::AuxiliaryVerb => "助動詞"@,
            PoS::URL => "URL"@,
            PoS::Symbol => "記号"@,
            PoS::Whitespace => "空白"@,
            PoS::Filler => "言いよどみ"@,
            PoS::EnglishWord => "英単語"@,
            PoS::UNK => "UNK"@,
            PoS::Absent => "None"@,
        }
    }

    /// The first tag from place `n` on whose name is `s`.
    pub open spec fn named_from(s: Seq<char>, n: nat) -> Option<PoS>
        decreases POS_COUNT - n,
    {
        if n >= POS_COUNT {
            None
        } else if PoS::at(n).name() == s {
            Some(PoS::at(n))
        } else {
            PoS::named_from(s, n + 1)
        }
    }

    /// The tag whose name is `s`, if the vocabulary holds one.
    pub open spec fn named(s: Seq<char>) -> Option<PoS> {
        PoS::named_from(s, 0)
    }

    /// The tag that the first of `fields` names; the last tag of the
    /// vocabulary where there is no field or it names none.
    pub open spec fn of_fields(fields: Seq<Seq<u8>>) -> PoS {
        if fields.len() > 0 {
            match PoS::named(decode_utf8(fields[0])) {
                Some(p) => p,
                None => PoS::Absent,
            }
        } else {
            PoS::Absent
        }
    }

    /// The tag at place `n` of the vocabulary; the last one where `n` is
    /// no place of it.
    pub fn from_prim(n: u8) -> (r: Self)
        ensures
            r == PoS::at(n as nat),
            n < POS_COUNT ==> r.ordinal() == n,
    {
        match n {
            0 => PoS::Noun,
            1 => PoS::Verb,
            2 => PoS::Suffix,
            3 => PoS::Adjective,
            4 => PoS::Pronoun,
            5 => PoS::Adverb,
            6 => PoS::AdjectivalNoun,
            7 => PoS::Adnominal,
            8 => PoS::Prefix,
            9 => PoS::Conjunction,
            10 => PoS::Interjection,
            11 => PoS::Particle,
            12 => PoS::AuxiliarySymbol,
            13 => PoS::Ending,
            14 => PoS::AuxiliaryVerb,
            15 => PoS::URL,
            16 => PoS::Symbol,
            17 => PoS::Whitespace,
            18 => PoS::Filler,
            19 => PoS::EnglishWord,
            20 => PoS::UNK,
            _ => PoS::Absent,
        }
    }

    /// The place of the tag in the vocabulary.
    pub fn to_prim(self) -> (r: u8)
        ensures
            r == self.ordinal(),
            r < POS_COUNT,
            PoS::at(r as nat) == self,
    {
        match self {
            PoS::Noun => 0,
            PoS::Verb => 1,
            PoS::Suffix => 2,
            PoS::Adjective => 3,
            PoS::Pronoun => 4,
            PoS::Adverb => 5,
            PoS::AdjectivalNoun => 6,
            PoS::Adnominal => 7,
            PoS::Prefix => 8,
            PoS::Conjunction => 9,
            PoS::Interjection => 10,
            PoS::Particle => 11,
            PoS::AuxiliarySymbol => 12,
            PoS::Ending => 13,
            PoS::AuxiliaryVerb => 14,
            PoS::URL => 15,
            PoS::Symbol => 16,
            PoS::Whitespace => 17,
            PoS::Filler => 18,
            PoS::EnglishWord => 19,
            PoS::UNK => 20,
            PoS::Absent => 21,
        }
    }

    /// The name of the tag in the analyzer's output.
    pub fn as_str(self) -> (r: &'static str)
        ensures
            r@ == self.name(),
    {
        match self {
            PoS::Noun => "名詞",
            PoS::Verb => "動詞",
            PoS::Suffix => "接尾辞",
            PoS::Adjective => "形容詞",
            PoS::Pronoun => "代名詞",
            PoS::Adverb => "副詞",
            PoS::AdjectivalNoun => "形状詞",
            PoS::Adnominal => "連体詞",
            PoS::Prefix => "接頭辞",
            PoS::Conjunction => "接続詞",
            PoS::Interjection => "感動詞",
            PoS::Particle => "助詞",
            PoS::AuxiliarySymbol => "補助記号",
            PoS::Ending => "語尾",
            PoS::AuxiliaryVerb => "助動詞",
            PoS::URL => "URL",
            PoS::Symbol => "記号",
            PoS::Whitespace => "空白",
            PoS::Filler => "言いよどみ",
            PoS::EnglishWord => "英単語",
            PoS::UNK => "UNK",
            PoS::Absent => "None",
        }
    }

    /// The name of the tag as a string of its own.
    pub fn to_string(self) -> (r: String)
        ensures
            r@ == self.name(),
    {
        String::from_str(self.as_str())
    }

    /// Reads a tag from its name.
    pub fn parse(s: &str) -> (r: Option<Self>)
        ensures
            r == PoS::named(s@),
    {
        let mut n: u8 = 0;
        while n < POS_COUNT
            invariant
                n <= POS_COUNT,
                PoS::named(s@) == PoS::named_from(s@, n as nat),
            decreases POS_COUNT - n,
        {
            let p = PoS::from_prim(n);
            if str_eq(s, p.as_str()) {
                return Some(p);
            }
            n = n + 1;
        }
        None
    }

    /// Writes a slash and the name of the tag behind `surface`.
    pub fn append_to(self, surface: &mut String)
        ensures
            final(surface)@ == old(surface)@ + seq!['/'] + self.name(),
    {
        proof {
            reveal_strlit("/");
            assert("/"@ =~= seq!['/']);
        }
        surface.append("/");
        surface.append(self.as_str());
    }

    /// The tag that follows this one in the vocabulary, if one does.
    pub fn next_pos(self) -> (r: Option<Self>)
        ensures
            r == if self.ordinal() + 1 < POS_COUNT {
                Some(PoS::at(self.ordinal() + 1))
            } else {
                None
            },
    {
        let n = self.to_prim();
        if n + 1 < POS_COUNT {
            Some(PoS::from_prim(n + 1))
        } else {
            None
        }
    }

    /// What `f` makes of each tag of the vocabulary, in its order.
    pub fn repeat<F: Fn(PoS) -> T, T>(f: F) -> (r: Vec<T>)
        requires
            forall|p: PoS| call_requires(f, (p,)),
        ensures
            r@.len() == POS_COUNT,
            forall|i: int| 0 <= i < POS_COUNT ==> call_ensures(f, (PoS::at(i as nat),), #[trigger] r@[i]),
    {
        let mut out: Vec<T> = Vec::new();
        let mut n: u8 = 0;
        while n < POS_COUNT
            invariant
                n <= POS_COUNT,
                out@.len() == n,
                forall|p: PoS| call_requires(f, (p,)),
                forall|i: int| 0 <= i < n ==> call_ensures(f, (PoS::at(i as nat),), #[trigger] out@[i]),
            decreases POS_COUNT - n,
        {
            out.push(f(PoS::from_prim(n)));
            n = n + 1;
        }
        out
    }

    /// A cursor over the whole vocabulary, in its order.
    pub fn iter() -> (it: PosIterator)
        ensures
            it@ == Some(PoS::Noun),
    {
        PosIterator::new()
    }
}

impl core::str::FromStr for PoS {
    type Err = ParseError;

    fn from_str(s: &str) -> (r: Result<Self, Self::Err>)
        ensures
            r == match PoS::named(s@) {
                Some(p) => Ok::<PoS, ParseError>(p),
                None => Err(ParseError::VariantNotFound),
            },
    {
        match PoS::parse(s) {
            Some(p) => Ok(p),
            None => Err(ParseError::VariantNotFound),
        }
    }
}

/// The tag that the next field names; the last tag of the vocabulary where
/// there is no field or it names none.
impl<'a> Tags<'a> for PoS {
    open spec fn width() -> nat {
        1
    }

    open spec fn decoded_from(&self, fields: Seq<Seq<u8>>) -> bool {
        *self == PoS::of_fields(fields)
    }

    fn from_tags(tags: &mut TagIterator<'a>) -> (r: Self) {
        let ghost before = tags@;
        match tags.next() {
            Some(tag) => {
                proof {
                    encode_utf8_decode_utf8(tag@);
                    assert(tags@ =~= crate::tag::fields_after(before, 1));
                }
                match PoS::parse(tag) {
                    Some(p) => p,
                    None => PoS::Absent,
                }
            },
            None => {
                assert(tags@ =~= crate::tag::fields_after(before, 1));
                PoS::Absent
            },
        }
    }
}

/// A cursor over the vocabulary, front to back.
pub struct PosIterator {
    current: Option<PoS>,
}

impl Default for PosIterator {
    fn default() -> (it: Self)
        ensures
            it@ == Some(PoS::Noun),
    {
        PosIterator { current: Some(PoS::Noun) }
    }
}

impl PosIterator {
    /// The tag that comes out next, if any is left.
    pub closed spec fn view(self) -> Option<PoS> {
        self.current
    }

    /// A cursor at the first tag of the vocabulary.
    pub fn new() -> (it: Self)
        ensures
            it@ == Some(PoS::Noun),
    {
        PosIterator { current: Some(PoS::Noun) }
    }

    /// Hands out the tag at the cursor and moves on to its successor.
    pub fn next(&mut self) -> (r: Option<PoS>)
        ensures
            r == old(self)@,
            final(self)@ == match old(self)@ {
                Some(p) => if p.ordinal() + 1 < POS_COUNT {
                    Some(PoS::at(p.ordinal() + 1))
                } else {
                    None
                },
                None => None,
            },
    {
        match self.current {
            Some(pos) => {
                self.current = pos.next_pos();
                Some(pos)
            },
            None => None,
        }
    }
}

/// The first two characters of the name of a tag.
spec fn name_start(p: PoS) -> (char, char) {
    match p {
        PoS::Noun => ('名', '詞'),
        PoS::Verb => ('動', '詞'),
        PoS::Suffix => ('接', '尾'),
        PoS::Adjective => ('形', '容'),
        PoS::Pronoun => ('代', '名'),
        PoS::Adverb => ('副', '詞'),
        PoS::AdjectivalNoun => ('形', '状'),
        PoS::Adnominal => ('連', '体'),
        PoS::Prefix => ('接', '頭'),
        PoS::Conjunction => ('接', '続'),
        PoS::Interjection => ('感', '動'),
        PoS::Particle => ('助', '詞'),
        PoS::AuxiliarySymbol => ('補', '助'),
        PoS::Ending => ('語', '尾'),
        PoS::AuxiliaryVerb => ('助', '動'),
        PoS::URL => ('U', 'R'),
        PoS::Symbol => ('記', '号'),
        PoS::Whitespace => ('空', '白'),
        PoS::Filler => ('言', 'い'),
        PoS::EnglishWord => ('英', '単'),
        PoS::UNK => ('U', 'N'),
        PoS::Absent => ('N', 'o'),
    }
}

/// Every name has two characters at least, and they are those of
/// `name_start`.
proof fn lemma_name_start(p: PoS)
    ensures
        p.name().len() >= 2,
        (p.name()[0], p.name()[1]) == name_start(p),
{
    reveal_strlit("名詞");
    reveal_strlit("動詞");
    reveal_strlit("接尾辞");
    reveal_strlit("形容詞");
    reveal_strlit("代名詞");
    reveal_strlit("副詞");
    reveal_strlit("形状詞");
    reveal_strlit("連体詞");
    reveal_strlit("接頭辞");
    reveal_strlit("接続詞");
    reveal_strlit("感動詞");
    reveal_strlit("助詞");
    reveal_strlit("補助記号");
    reveal_strlit("語尾");
    reveal_strlit("助動詞");
    reveal_strlit("URL");
    reveal_strlit("記号");
    reveal_strlit("空白");
    reveal_strlit("言いよどみ");
    reveal_strlit("英単語");
    reveal_strlit("UNK");
    reveal_strlit("None");
}

/// No two tags have the same name.
pub proof fn lemma_names_differ(p: PoS, q: PoS)
    requires
        p != q,
    ensures
        p.name() != q.name(),
{
    lemma_name_start(p);
    lemma_name_start(q);
}

/// Reading the name of `p` from place `n` on finds `p`, where `n` is not
/// behind the place of `p`.
proof fn lemma_named_from(p: PoS, n: nat)
    requires
        n <= p.ordinal(),
    ensures
        PoS::named_from(p.name(), n) == Some(p),
    decreases p.ordinal() - n,
{
    if PoS::at(n) != p {
        lemma_names_differ(PoS::at(n), p);
        lemma_named_from(p, n + 1);
    }
}

/// The tags have names of their own: each tag is read back from its name.
pub proof fn lemma_name_names_its_tag(p: PoS)
    ensures
        PoS::named(p.name()) == Some(p),
{
    lemma_named_from(p, 0);
}

/// The places of the vocabulary and its tags stand one for one.
pub proof fn lemma_places_and_tags(p: PoS, n: nat)
    ensures
        p.ordinal() < POS_COUNT,
        PoS::at(p.ordinal()) == p,
        n < POS_COUNT ==> PoS::at(n).ordinal() == n,
{
}

} // verus!
