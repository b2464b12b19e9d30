use bert_pipeline::assemble::{assemble, EncodeConfig};
use bert_pipeline::bert::BertErrors;
use bert_pipeline::normalize::{normalize, split_words};
use bert_pipeline::pipeline::{Action, BatchRun, BertTokenizer};
use bert_pipeline::segment::{segment, segment_words};
use bert_pipeline::text::{chars_of, classify, same_chars, CharClass};
use bert_pipeline::vocab::{VocabError, Vocabulary};

fn chars(s: &str) -> Vec<char> {
    s.chars().collect()
}

fn words(list: &[&str]) -> Vec<Vec<char>> {
    list.iter().map(|s| chars(s)).collect()
}

fn small_vocab() -> Vocabulary {
    Vocabulary::new(words(&["[CLS]", "[SEP]", "[PAD]", "[UNK]", "play", "##ing"])).unwrap()
}

fn config(max_length: usize, pad_enabled: bool, truncate_enabled: bool) -> EncodeConfig {
    EncodeConfig { max_length, pad_enabled, truncate_enabled }
}

fn small_tokenizer(max_length: usize) -> BertTokenizer {
    BertTokenizer::new(small_vocab(), config(max_length, true, true))
}

#[test]
fn encodes_playing_with_padding() {
    let encoded = small_tokenizer(6).encode("playing").unwrap();
    assert_eq!(encoded.ids, vec![0, 4, 5, 1, 2, 2]);
    assert_eq!(encoded.mask, vec![1, 1, 1, 1, 0, 0]);
}

#[test]
fn encodes_empty_sentence_as_specials_and_padding() {
    let encoded = small_tokenizer(6).encode("").unwrap();
    assert_eq!(encoded.ids, vec![0, 1, 2, 2, 2, 2]);
    assert_eq!(encoded.mask, vec![1, 1, 0, 0, 0, 0]);
}

#[test]
fn encode_folds_case_and_accents() {
    let encoded = small_tokenizer(6).encode("PLÁYING").unwrap();
    assert_eq!(encoded.ids, vec![0, 4, 5, 1, 2, 2]);
    assert_eq!(encoded.mask, vec![1, 1, 1, 1, 0, 0]);
}

#[test]
fn encode_folded_matches_encode_on_folded_text() {
    let tokenizer = small_tokenizer(8);
    let encoded = tokenizer.encode_folded(&chars("playing play xyz"));
    assert_eq!(encoded.ids, vec![0, 4, 5, 4, 3, 1, 2, 2]);
    assert_eq!(encoded.mask, vec![1, 1, 1, 1, 1, 1, 0, 0]);
}

#[test]
fn ids_and_mask_have_equal_length() {
    let vocab = small_vocab();
    for n in 0..6 {
        let tokens: Vec<Vec<char>> = (0..n).map(|_| chars("play")).collect();
        for max_length in 0..9 {
            for flags in 0..4 {
                let encoded = assemble(&tokens, &vocab, config(max_length, flags & 1 == 1, flags & 2 == 2));
                assert_eq!(encoded.ids.len(), encoded.mask.len());
            }
        }
    }
}

#[test]
fn padded_and_truncated_length_is_max_length() {
    let vocab = small_vocab();
    for n in 0..8 {
        let tokens: Vec<Vec<char>> = (0..n).map(|_| chars("play")).collect();
        for max_length in 2..9 {
            let encoded = assemble(&tokens, &vocab, config(max_length, true, true));
            assert_eq!(encoded.ids.len(), max_length);
            assert_eq!(encoded.mask.len(), max_length);
        }
    }
}

#[test]
fn truncation_keeps_both_special_tokens() {
    let vocab = small_vocab();
    let tokens = words(&["play", "##ing", "play", "##ing", "play"]);
    let encoded = assemble(&tokens, &vocab, config(4, true, true));
    assert_eq!(encoded.ids, vec![0, 4, 5, 1]);
    assert_eq!(encoded.mask, vec![1, 1, 1, 1]);
}

#[test]
fn truncation_below_two_keeps_only_special_tokens() {
    let vocab = small_vocab();
    let tokens = words(&["play", "##ing"]);
    for max_length in 0..2 {
        let encoded = assemble(&tokens, &vocab, config(max_length, true, true));
        assert_eq!(encoded.ids, vec![0, 1]);
        assert_eq!(encoded.mask, vec![1, 1]);
    }
}

#[test]
fn no_truncation_keeps_every_token() {
    let vocab = small_vocab();
    let tokens = words(&["play", "##ing", "play"]);
    let encoded = assemble(&tokens, &vocab, config(2, true, false));
    assert_eq!(encoded.ids, vec![0, 4, 5, 4, 1]);
    assert_eq!(encoded.mask, vec![1, 1, 1, 1, 1]);
}

#[test]
fn no_padding_keeps_natural_length() {
    let vocab = small_vocab();
    let tokens = words(&["play"]);
    let encoded = assemble(&tokens, &vocab, config(10, false, true));
    assert_eq!(encoded.ids, vec![0, 4, 1]);
    assert_eq!(encoded.mask, vec![1, 1, 1]);
}

#[test]
fn unmapped_token_takes_unknown_id() {
    let vocab = small_vocab();
    let tokens = words(&["play", "nothing"]);
    let encoded = assemble(&tokens, &vocab, config(5, true, true));
    assert_eq!(encoded.ids, vec![0, 4, 3, 1, 2]);
    assert_eq!(encoded.mask, vec![1, 1, 1, 1, 0]);
}

#[test]
fn segment_splits_greedily() {
    let vocab = small_vocab();
    assert_eq!(segment(&chars("playing"), &vocab), words(&["play", "##ing"]));
    assert_eq!(segment(&chars("play"), &vocab), words(&["play"]));
}

#[test]
fn segment_prefers_longest_piece() {
    let vocab = Vocabulary::new(words(&[
        "[CLS]", "[SEP]", "[PAD]", "[UNK]", "p", "pl", "play", "##a", "##ay", "##y", "##s",
    ]))
    .unwrap();
    assert_eq!(segment(&chars("plays"), &vocab), words(&["play", "##s"]));
    assert_eq!(segment(&chars("pay"), &vocab), words(&["p", "##ay"]));
}

#[test]
fn segment_unknown_word_is_one_unknown_token() {
    let vocab = small_vocab();
    assert_eq!(segment(&chars("xyz"), &vocab), words(&["[UNK]"]));
}

#[test]
fn segment_word_with_unmatched_tail_is_one_unknown_token() {
    let vocab = small_vocab();
    assert_eq!(segment(&chars("playful"), &vocab), words(&["[UNK]"]));
    assert_eq!(segment(&chars("ing"), &vocab), words(&["[UNK]"]));
}

#[test]
fn segment_empty_word_gives_no_token() {
    let vocab = small_vocab();
    assert_eq!(segment(&chars(""), &vocab), Vec::<Vec<char>>::new());
}

#[test]
fn segment_words_chains_in_order() {
    let vocab = small_vocab();
    let got = segment_words(&words(&["playing", "", "zzz", "play"]), &vocab);
    assert_eq!(got, words(&["play", "##ing", "[UNK]", "play"]));
}

#[test]
fn pieces_spell_the_word() {
    let vocab = small_vocab();
    let pieces = segment(&chars("playing"), &vocab);
    let mut spelled: Vec<char> = Vec::new();
    for (i, piece) in pieces.iter().enumerate() {
        let skip = if i == 0 { 0 } else { 2 };
        spelled.extend(piece.iter().skip(skip));
    }
    assert_eq!(spelled, chars("playing"));
}

#[test]
fn split_words_separates_punctuation_and_drops_whitespace() {
    assert_eq!(
        split_words(&chars("  hello,  world!\tok42 ")),
        words(&["hello", ",", "world", "!", "ok42"])
    );
    assert_eq!(split_words(&chars("a--b")), words(&["a", "-", "-", "b"]));
    assert_eq!(split_words(&chars("   ")), Vec::<Vec<char>>::new());
    assert_eq!(split_words(&chars("")), Vec::<Vec<char>>::new());
}

#[test]
fn split_words_is_idempotent_on_its_words() {
    for word in split_words(&chars("it's 9 o'clock, mr. o'neil!")) {
        assert_eq!(split_words(&word), vec![word.clone()]);
    }
}

#[test]
fn normalize_lowercases_and_strips_accents() {
    assert_eq!(normalize("Héllo, WORLD").unwrap(), words(&["hello", ",", "world"]));
}

#[test]
fn normalize_twice_is_a_no_op() {
    let once = normalize("Crème Brûlée, s'il vous plaît!").unwrap();
    for word in &once {
        let text: String = word.iter().collect();
        assert_eq!(normalize(&text).unwrap(), vec![word.clone()]);
    }
    let joined: Vec<String> = once.iter().map(|w| w.iter().collect()).collect();
    assert_eq!(normalize(&joined.join(" ")).unwrap(), once);
}

#[test]
fn classify_tells_the_three_classes_apart() {
    assert_eq!(classify(' '), CharClass::Space);
    assert_eq!(classify('\n'), CharClass::Space);
    assert_eq!(classify('a'), CharClass::Word);
    assert_eq!(classify('7'), CharClass::Word);
    assert_eq!(classify('é'), CharClass::Word);
    assert_eq!(classify('#'), CharClass::Punct);
    assert_eq!(classify('.'), CharClass::Punct);
}

#[test]
fn chars_of_and_same_chars() {
    assert_eq!(chars_of("añb"), vec!['a', 'ñ', 'b']);
    assert!(same_chars(&chars("abc"), &chars("abc")));
    assert!(!same_chars(&chars("abc"), &chars("abd")));
    assert!(!same_chars(&chars("abc"), &chars("ab")));
}

#[test]
fn vocabulary_ids_are_positions() {
    let vocab = small_vocab();
    assert_eq!(vocab.len(), 6);
    assert_eq!(vocab.id_of(&chars("[CLS]")), Some(0));
    assert_eq!(vocab.id_of(&chars("##ing")), Some(5));
    assert_eq!(vocab.id_of(&chars("ing")), None);
    assert!(vocab.contains(&chars("play")));
    assert!(!vocab.contains(&chars("pla")));
    assert_eq!(vocab.id_or_unk(&chars("play")), 4);
    assert_eq!(vocab.id_or_unk(&chars("absent")), 3);
    assert_eq!((vocab.cls_id(), vocab.sep_id(), vocab.pad_id(), vocab.unk_id()), (0, 1, 2, 3));
}

#[test]
fn vocabulary_later_line_replaces_earlier() {
    let vocab = Vocabulary::new(words(&["play", "[PAD]", "[UNK]", "[CLS]", "[SEP]", "play"])).unwrap();
    assert_eq!(vocab.id_of(&chars("play")), Some(5));
    assert_eq!((vocab.cls_id(), vocab.sep_id(), vocab.pad_id(), vocab.unk_id()), (3, 4, 1, 2));
}

#[test]
fn vocabulary_from_lines() {
    let lines: Vec<String> =
        ["[PAD]", "[UNK]", "[CLS]", "[SEP]", "the"].iter().map(|s| s.to_string()).collect();
    let vocab = Vocabulary::from_lines(&lines).unwrap();
    assert_eq!(vocab.id_of(&chars("the")), Some(4));
    assert_eq!(vocab.pad_id(), 0);
}

#[test]
fn vocabulary_needs_every_special_token() {
    assert_eq!(
        Vocabulary::new(words(&["[SEP]", "[PAD]", "[UNK]"])).err(),
        Some(VocabError::MissingCls)
    );
    assert_eq!(
        Vocabulary::new(words(&["[CLS]", "[PAD]", "[UNK]"])).err(),
        Some(VocabError::MissingSep)
    );
    assert_eq!(
        Vocabulary::new(words(&["[CLS]", "[SEP]", "[UNK]"])).err(),
        Some(VocabError::MissingPad)
    );
    assert_eq!(
        Vocabulary::new(words(&["[CLS]", "[SEP]", "[PAD]"])).err(),
        Some(VocabError::MissingUnk)
    );
    assert_eq!(Vocabulary::new(Vec::new()).err(), Some(VocabError::MissingCls));
}

#[test]
fn error_messages() {
    assert_eq!(BertErrors::TokenizerError.message(), "Error in tokenization");
    assert_eq!(BertErrors::TorchError.message(), "Error in torch model");
}

fn three_sentences() -> Vec<String> {
    vec!["playing".to_string(), "".to_string(), "play xyz".to_string()]
}

#[test]
fn batch_run_labels_three_rows_in_order() {
    let tokenizer = small_tokenizer(6);
    let mut run = BatchRun::new(three_sentences());
    let expected_ids = [vec![0, 4, 5, 1, 2, 2], vec![0, 1, 2, 2, 2, 2], vec![0, 4, 3, 1, 2, 2]];
    for (i, ids) in expected_ids.iter().enumerate() {
        let (next, action) = run.next(&tokenizer);
        match action {
            Action::Predict(encoded) => assert_eq!(&encoded.ids, ids),
            other => panic!("expected a sentence to predict, got {:?}", other),
        }
        run = next.record(Ok(10 + i as i64));
    }
    let (run, action) = run.next(&tokenizer);
    assert!(matches!(action, Action::Finish));
    assert_eq!(run.into_labels(), Some(vec![10, 11, 12]));
}

#[test]
fn batch_run_aborts_on_first_failure_without_labels() {
    let tokenizer = small_tokenizer(6);
    let run = BatchRun::new(three_sentences());
    let (run, action) = run.next(&tokenizer);
    assert!(matches!(action, Action::Predict(_)));
    let run = run.record(Ok(1));
    let (run, action) = run.next(&tokenizer);
    assert!(matches!(action, Action::Predict(_)));
    let run = run.record(Err(BertErrors::TorchError));
    let (run, action) = run.next(&tokenizer);
    assert!(matches!(action, Action::Abort(BertErrors::TorchError)));
    let run = run.record(Ok(3));
    let (run, action) = run.next(&tokenizer);
    assert!(matches!(action, Action::Abort(BertErrors::TorchError)));
    assert_eq!(run.into_labels(), None);
}

#[test]
fn batch_run_unfinished_has_no_labels() {
    let run = BatchRun::new(three_sentences()).record(Ok(1));
    assert_eq!(run.into_labels(), None);
}

#[test]
fn batch_run_of_nothing_finishes_at_once() {
    let tokenizer = small_tokenizer(6);
    let (run, action) = BatchRun::new(Vec::new()).next(&tokenizer);
    assert!(matches!(action, Action::Finish));
    let run = run.record(Ok(5));
    assert_eq!(run.into_labels(), Some(Vec::new()));
}
