//! What an encoded sequence says about the words it came from: the way back
//! from ids to words, stated over sequences and proved to undo encoding.

use vstd::prelude::*;
use crate::assemble::{assembled_ids, assembled_mask, ids_of, padding, EncodeConfig};
use crate::normalize::{is_word, lemma_split_words_shape, normalize_spec};
use crate::pipeline::BertTokenizer;
use crate::segment::{
    decodable, decode_spec, is_continuation, lemma_decode_segmented_words, lemma_pieces_shape,
    pieces_from, segment_spec, segment_words_spec,
};
use crate::text::{bert_folded, class_of, lemma_class_of_space_and_marker, CharClass};
use crate::vocab::{lemma_lookup, lookup, Vocabulary};

verus! {

/// The number of real positions that a mask marks.
pub open spec fn real_len(mask: Seq<u32>) -> int
    decreases mask.len(),
{
    if mask.len() == 0 {
        0
    } else {
        real_len(mask.drop_last()) + if mask.last() == 1u32 {
            1int
        } else {
            0int
        }
    }
}

/// The ids between the two special tokens, padding left out.
pub open spec fn content_ids(ids: Seq<u32>, mask: Seq<u32>) -> Seq<u32> {
    ids.subrange(1, real_len(mask) - 1)
}

/// The tokens that ids stand for.
pub open spec fn tokens_at(entries: Seq<Seq<char>>, ids: Seq<u32>) -> Seq<Seq<char>> {
    Seq::new(ids.len(), |i: int| entries[ids[i] as int])
}

/// The words that an encoded sequence spells: special tokens and padding
/// stripped, ids turned back into tokens, continuation pieces joined.
pub open spec fn decoded_words(entries: Seq<Seq<char>>, ids: Seq<u32>, mask: Seq<u32>) -> Seq<
    Seq<char>,
> {
    decode_spec(tokens_at(entries, content_ids(ids, mask)))
}

/// A mask of ones marks every position.
pub proof fn lemma_real_len_ones(n: nat)
    ensures
        real_len(Seq::new(n, |i: int| 1u32)) == n,
    decreases n,
{
    if n > 0 {
        lemma_real_len_ones((n - 1) as nat);
        assert(Seq::new(n, |i: int| 1u32).drop_last() =~= Seq::new((n - 1) as nat, |i: int| 1u32));
    }
}

/// Zeros at the end of a mask mark nothing.
pub proof fn lemma_real_len_zeros(mask: Seq<u32>, n: nat)
    ensures
        real_len(mask + Seq::new(n, |i: int| 0u32)) == real_len(mask),
    decreases n,
{
    let padded = mask + Seq::new(n, |i: int| 0u32);
    if n == 0 {
        assert(padded =~= mask);
    } else {
        lemma_real_len_zeros(mask, (n - 1) as nat);
        assert(padded.drop_last() =~= mask + Seq::new((n - 1) as nat, |i: int| 0u32));
    }
}

/// Every token of decodable words is in the vocabulary.
pub proof fn lemma_segmented_tokens_known(entries: Seq<Seq<char>>, words: Seq<Seq<char>>)
    requires
        forall|k: int| 0 <= k < words.len() ==> decodable(entries, #[trigger] words[k]),
    ensures
        forall|j: int|
            0 <= j < segment_words_spec(entries, words).len() ==> lookup(
                entries,
                #[trigger] segment_words_spec(entries, words)[j],
            ) is Some,
    decreases words.len(),
{
    if words.len() > 0 {
        let front = words.drop_last();
        let word = words.last();
        assert forall|k: int| 0 <= k < front.len() implies decodable(
            entries,
            #[trigger] front[k],
        ) by {
            assert(front[k] == words[k]);
        }
        lemma_segmented_tokens_known(entries, front);
        assert(decodable(entries, words[words.len() - 1]));
        lemma_pieces_shape(entries, word, 0);
        let head = segment_words_spec(entries, front);
        let pieces = segment_spec(entries, word);
        let all = segment_words_spec(entries, words);
        assert(all == head + pieces);
        assert forall|j: int| 0 <= j < all.len() implies lookup(entries, #[trigger] all[j])
            is Some by {
            if j < head.len() {
                assert(all[j] == head[j]);
            } else {
                assert(all[j] == pieces[j - head.len()]);
            }
        }
    }
}

/// Ids of tokens that the vocabulary has stand for those tokens.
pub proof fn lemma_tokens_at_ids(vocab: &Vocabulary, tokens: Seq<Seq<char>>)
    requires
        vocab.wf(),
        forall|j: int| 0 <= j < tokens.len() ==> lookup(vocab.entries(), #[trigger] tokens[j])
            is Some,
    ensures
        tokens_at(vocab.entries(), ids_of(vocab, tokens)) == tokens,
{
    vocab.lemma_special_ids();
    let entries = vocab.entries();
    let back = tokens_at(entries, ids_of(vocab, tokens));
    assert forall|j: int| 0 <= j < tokens.len() implies back[j] == tokens[j] by {
        lemma_lookup(entries, tokens[j]);
        assert(lookup(entries, tokens[j]) is Some);
    }
    assert(back =~= tokens);
}

/// Encoding then decoding gives the words back: for words none of which was
/// replaced by the unknown token, and a configuration that truncates
/// nothing of them, the assembled ids and mask decode to the same words.
pub proof fn lemma_encode_decode_round_trip(
    vocab: &Vocabulary,
    words: Seq<Seq<char>>,
    config: EncodeConfig,
)
    requires
        vocab.wf(),
        forall|k: int| 0 <= k < words.len() ==> decodable(vocab.entries(), #[trigger] words[k]),
        !config.truncate_enabled || segment_words_spec(vocab.entries(), words).len() + 2
            <= config.max_length,
    ensures
        decoded_words(
            vocab.entries(),
            assembled_ids(vocab, segment_words_spec(vocab.entries(), words), config),
            assembled_mask(segment_words_spec(vocab.entries(), words).len() as int, config),
        ) == words,
{
    let entries = vocab.entries();
    let tokens = segment_words_spec(entries, words);
    let n = tokens.len() as int;
    let ids = assembled_ids(vocab, tokens, config);
    let mask = assembled_mask(n, config);
    let fill = padding(n + 2, config.max_length as int, config.pad_enabled);
    lemma_real_len_ones((n + 2) as nat);
    lemma_real_len_zeros(Seq::new((n + 2) as nat, |i: int| 1u32), fill as nat);
    assert(real_len(mask) == n + 2);
    assert(tokens.take(n) =~= tokens);
    assert(content_ids(ids, mask) =~= ids_of(vocab, tokens));
    lemma_segmented_tokens_known(entries, words);
    lemma_tokens_at_ids(vocab, tokens);
    lemma_decode_segmented_words(entries, words);
}

/// A word that splitting produces does not begin with the continuation
/// marker: `#` is punctuation, and a word that holds punctuation holds
/// nothing else.
pub proof fn lemma_word_is_no_continuation(word: Seq<char>)
    requires
        is_word(word),
    ensures
        !is_continuation(word),
{
    lemma_class_of_space_and_marker();
    if is_continuation(word) {
        assert(class_of(word[0]) == CharClass::Punct);
    }
}

/// The same for a whole sentence: where every word of the sentence segments
/// into vocabulary pieces, so that none is replaced by the unknown token, and
/// two more than the number of those pieces fit within the maximum length,
/// the encoded sentence decodes to the word-level tokens of the sentence,
/// which are its folded words in order.
pub proof fn lemma_sentence_round_trip(tokenizer: &BertTokenizer, sentence: Seq<char>)
    requires
        tokenizer.vocab.wf(),
        forall|k: int|
            0 <= k < normalize_spec(sentence).len() ==> pieces_from(
                tokenizer.vocab.entries(),
                #[trigger] normalize_spec(sentence)[k],
                0,
            ) is Some,
        !tokenizer.config.truncate_enabled || tokenizer.tokens_of(bert_folded(sentence)).len() + 2
            <= tokenizer.config.max_length,
    ensures
        decoded_words(
            tokenizer.vocab.entries(),
            tokenizer.encoded_ids(bert_folded(sentence)),
            tokenizer.encoded_mask(bert_folded(sentence)),
        ) == normalize_spec(sentence),
{
    let words = normalize_spec(sentence);
    lemma_split_words_shape(bert_folded(sentence));
    assert forall|k: int| 0 <= k < words.len() implies decodable(
        tokenizer.vocab.entries(),
        #[trigger] words[k],
    ) by {
        assert(is_word(words[k]));
        lemma_word_is_no_continuation(words[k]);
    }
    lemma_encode_decode_round_trip(&tokenizer.vocab, words, tokenizer.config);
}

} // verus!
