use bert_pipeline::assemble::EncodeConfig;
use bert_pipeline::normalize::{normalize, split_words};
use bert_pipeline::pipeline::BertTokenizer;
use bert_pipeline::segment::segment;
use bert_pipeline::text::{classify, is_folded, CharClass};
use bert_pipeline::vocab::{trim_end, VocabError, Vocabulary};

fn letters(s: &str) -> Vec<char> {
    s.chars().collect()
}

fn word_list(list: &[&str]) -> Vec<Vec<char>> {
    list.iter().map(|s| letters(s)).collect()
}

fn listed_whitespace(n: u32) -> bool {
    (0x09..=0x0D).contains(&n)
        || n == 0x20
        || n == 0x85
        || n == 0xA0
        || n == 0x1680
        || (0x2000..=0x200A).contains(&n)
        || n == 0x2028
        || n == 0x2029
        || n == 0x202F
        || n == 0x205F
        || n == 0x3000
}

#[test]
fn whitespace_class_is_the_listed_set() {
    let mut count = 0;
    for n in 0..=0x10FFFFu32 {
        if let Some(c) = char::from_u32(n) {
            assert_eq!(classify(c) == CharClass::Space, listed_whitespace(n), "U+{:04X}", n);
            if classify(c) == CharClass::Space {
                count += 1;
            }
        }
    }
    assert_eq!(count, 25);
}

#[test]
fn ascii_word_class_is_letters_and_digits() {
    for n in 0..0x80u32 {
        let c = char::from_u32(n).unwrap();
        let expected = c.is_ascii_digit() || c.is_ascii_uppercase() || c.is_ascii_lowercase();
        assert_eq!(classify(c) == CharClass::Word, expected, "U+{:04X}", n);
    }
    assert_eq!(classify('#'), CharClass::Punct);
    assert_eq!(classify('_'), CharClass::Punct);
    assert_eq!(classify('\u{200B}'), CharClass::Punct);
    assert_eq!(classify('\u{00A0}'), CharClass::Space);
}

#[test]
fn is_folded_tells_folded_text_apart() {
    assert!(is_folded(""));
    assert!(is_folded("hello , world"));
    assert!(!is_folded("Hello"));
    assert!(!is_folded("héllo"));
    assert!(!is_folded("a\tb"));
    assert!(!is_folded("中"));
}

#[test]
fn normalize_of_joined_words_gives_the_words_back() {
    for text in ["Crème Brûlée, s'il vous plaît!", "  A\tB\u{00A0}c-d  ", "", "x", "#hash ##tag"] {
        let once = normalize(text).unwrap();
        let strings: Vec<String> = once.iter().map(|w| w.iter().collect()).collect();
        let joined = strings.join(" ");
        assert!(is_folded(&joined), "{:?}", joined);
        assert_eq!(split_words(&letters(&joined)), once);
        assert_eq!(normalize(&joined).unwrap(), once);
    }
}

#[test]
fn normalize_of_joined_ideographs_gives_the_words_back() {
    let once = normalize("中文ab").unwrap();
    assert_eq!(once, word_list(&["中", "文", "ab"]));
    assert!(!is_folded("中 文 ab"));
    assert_eq!(normalize("中 文 ab").unwrap(), once);
}

#[test]
fn marker_characters_are_words_of_their_own() {
    assert_eq!(split_words(&letters("##ing")), word_list(&["#", "#", "ing"]));
    assert_eq!(split_words(&letters("5€")), word_list(&["5", "€"]));
}

#[test]
fn trim_end_drops_trailing_whitespace_only() {
    assert_eq!(trim_end(letters("  a b \t\r")), letters("  a b"));
    assert_eq!(trim_end(letters(" \u{3000} ")), letters(""));
    assert_eq!(trim_end(letters("ab")), letters("ab"));
    assert_eq!(trim_end(letters("")), letters(""));
}

#[test]
fn vocabulary_from_text_cuts_lines_and_trims() {
    let vocab = Vocabulary::from_text("[CLS]\n[SEP]\r\n[PAD]  \n\n[UNK]\nplay\n##ing").unwrap();
    assert_eq!(vocab.len(), 7);
    assert_eq!((vocab.cls_id(), vocab.sep_id(), vocab.pad_id(), vocab.unk_id()), (0, 1, 2, 4));
    assert_eq!(vocab.id_of(&letters("")), Some(3));
    assert_eq!(vocab.id_of(&letters("play")), Some(5));
    assert_eq!(vocab.id_of(&letters("##ing")), Some(6));
    assert_eq!(vocab.id_of(&letters("[PAD]  ")), None);
}

#[test]
fn vocabulary_from_text_ignores_one_final_newline() {
    let vocab = Vocabulary::from_text("[PAD]\n[UNK]\n[CLS]\n[SEP]\nthe\n").unwrap();
    assert_eq!(vocab.len(), 5);
    assert_eq!(vocab.id_of(&letters("the")), Some(4));
    let vocab = Vocabulary::from_text("[PAD]\n[UNK]\n[CLS]\n[SEP]\nthe\n\n").unwrap();
    assert_eq!(vocab.len(), 6);
    let vocab = Vocabulary::from_text("[PAD]\n[UNK]\n[CLS]\n[SEP]\nthe\n  ").unwrap();
    assert_eq!(vocab.len(), 6);
    assert_eq!(vocab.id_of(&letters("")), Some(5));
}

#[test]
fn vocabulary_from_text_reports_missing_tokens() {
    assert_eq!(Vocabulary::from_text("").err(), Some(VocabError::MissingCls));
    assert_eq!(Vocabulary::from_text("[CLS]\n[PAD]\n[UNK]\n").err(), Some(VocabError::MissingSep));
}

#[test]
fn encode_is_repeatable_after_another_sentence() {
    let vocab =
        Vocabulary::new(word_list(&["[CLS]", "[SEP]", "[PAD]", "[UNK]", "play", "##ing"])).unwrap();
    let tokenizer = BertTokenizer::new(
        vocab,
        EncodeConfig { max_length: 6, pad_enabled: true, truncate_enabled: true },
    );
    let first = tokenizer.encode("Playing play").unwrap();
    let other = tokenizer.encode("something else entirely").unwrap();
    let again = tokenizer.encode("Playing play").unwrap();
    assert_eq!(first.ids, vec![0, 4, 5, 4, 1, 2]);
    assert_eq!(first.mask, vec![1, 1, 1, 1, 1, 0]);
    assert_eq!(other.ids, vec![0, 3, 3, 3, 1, 2]);
    assert_eq!(again.ids, first.ids);
    assert_eq!(again.mask, first.mask);
}

#[test]
fn segment_has_no_limit_on_word_length() {
    let vocab =
        Vocabulary::new(word_list(&["[CLS]", "[SEP]", "[PAD]", "[UNK]", "a", "##a"])).unwrap();
    let word: Vec<char> = std::iter::repeat('a').take(101).collect();
    let pieces = segment(&word, &vocab);
    assert_eq!(pieces.len(), 101);
    assert_eq!(pieces[0], letters("a"));
    assert_eq!(pieces[100], letters("##a"));
}

#[test]
fn encoded_sentence_decodes_to_its_words() {
    let tokens = ["[CLS]", "[SEP]", "[PAD]", "[UNK]", "play", "##ing", "##s", "the", ",", "!"];
    let vocab = Vocabulary::new(word_list(&tokens)).unwrap();
    let tokenizer = BertTokenizer::new(
        vocab,
        EncodeConfig { max_length: 16, pad_enabled: true, truncate_enabled: true },
    );
    let sentence = "The PLÁYING, the plays!";
    let encoded = tokenizer.encode(sentence).unwrap();
    assert_eq!(encoded.ids, vec![0, 7, 4, 5, 8, 7, 4, 6, 9, 1, 2, 2, 2, 2, 2, 2]);
    let real = encoded.mask.iter().filter(|bit| **bit == 1).count();
    let mut decoded: Vec<Vec<char>> = Vec::new();
    for id in &encoded.ids[1..real - 1] {
        let token = letters(tokens[*id as usize]);
        if token.starts_with(&['#', '#']) && !decoded.is_empty() {
            decoded.last_mut().unwrap().extend(&token[2..]);
        } else {
            decoded.push(token);
        }
    }
    assert_eq!(decoded, word_list(&["the", "playing", ",", "the", "plays", "!"]));
    assert_eq!(decoded, normalize(sentence).unwrap());
}
