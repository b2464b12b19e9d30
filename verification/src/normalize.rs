//! Splitting folded text into word-level tokens: whitespace separates words
//! and is dropped, every punctuation character is a word of its own.

use vstd::prelude::*;
use crate::bert::BertErrors;
use crate::text::{bert_folded, class_of, classify, fold_text, CharClass};
use crate::vocab::tokens_view;

verus! {

/// The finished words followed by the word in progress, if it has any
/// character.
pub open spec fn flush(done: Seq<Seq<char>>, current: Seq<char>) -> Seq<Seq<char>> {
    if current.len() == 0 {
        done
    } else {
        done.push(current)
    }
}

/// The state after reading `text` from left to right: the words that are
/// finished, and the run of letters and digits still in progress.
pub open spec fn scan(text: Seq<char>) -> (Seq<Seq<char>>, Seq<char>)
    decreases text.len(),
{
    if text.len() == 0 {
        (Seq::empty(), Seq::empty())
    } else {
        let (done, current) = scan(text.drop_last());
        let c = text.last();
        match class_of(c) {
            CharClass::Space => (flush(done, current), Seq::empty()),
            CharClass::Punct => (flush(done, current).push(seq![c]), Seq::empty()),
            CharClass::Word => (done, current.push(c)),
        }
    }
}

/// The words of a text: its maximal runs of letters and digits and its
/// single punctuation characters, in order.
pub open spec fn split_words_spec(text: Seq<char>) -> Seq<Seq<char>> {
    flush(scan(text).0, scan(text).1)
}

/// The word-level tokens of a raw text: the words of its folded characters.
pub open spec fn normalize_spec(text: Seq<char>) -> Seq<Seq<char>> {
    split_words_spec(bert_folded(text))
}

/// Whether every character of `word` is a letter or a digit.
pub open spec fn all_word_chars(word: Seq<char>) -> bool {
    forall|i: int| 0 <= i < word.len() ==> class_of(#[trigger] word[i]) == CharClass::Word
}

/// The shape of a word that splitting produces: not empty, and either one
/// punctuation character or letters and digits only.
pub open spec fn is_word(word: Seq<char>) -> bool {
    &&& word.len() > 0
    &&& (word.len() == 1 && class_of(word[0]) == CharClass::Punct) || all_word_chars(word)
}

/// While a text is read, the finished words are well shaped and the word in
/// progress holds letters and digits only.
pub proof fn lemma_scan_shape(text: Seq<char>)
    ensures
        forall|k: int| 0 <= k < scan(text).0.len() ==> is_word(#[trigger] scan(text).0[k]),
        all_word_chars(scan(text).1),
    decreases text.len(),
{
    if text.len() > 0 {
        lemma_scan_shape(text.drop_last());
        let (done, current) = scan(text.drop_last());
        let c = text.last();
        let flushed = flush(done, current);
        assert forall|k: int| 0 <= k < flushed.len() implies is_word(#[trigger] flushed[k]) by {
            if k < done.len() {
                assert(is_word(done[k]));
            }
        }
        match class_of(c) {
            CharClass::Space => {},
            CharClass::Punct => {
                let next = flushed.push(seq![c]);
                assert forall|k: int| 0 <= k < next.len() implies is_word(#[trigger] next[k]) by {
                    if k < flushed.len() {
                        assert(is_word(flushed[k]));
                    } else {
                        assert(next[k] == seq![c]);
                        assert(seq![c][0] == c);
                    }
                }
            },
            CharClass::Word => {
                let next = current.push(c);
                assert forall|i: int| 0 <= i < next.len() implies class_of(#[trigger] next[i])
                    == CharClass::Word by {
                    if i < current.len() {
                        assert(class_of(current[i]) == CharClass::Word);
                    }
                }
            },
        }
    }
}

/// Every word that splitting produces is well shaped: no word is empty, holds
/// whitespace, or mixes punctuation with anything else.
pub proof fn lemma_split_words_shape(text: Seq<char>)
    ensures
        forall|k: int|
            0 <= k < split_words_spec(text).len() ==> is_word(#[trigger] split_words_spec(text)[k]),
{
    lemma_scan_shape(text);
    let (done, current) = scan(text);
    let words = split_words_spec(text);
    assert forall|k: int| 0 <= k < words.len() implies is_word(#[trigger] words[k]) by {
        if k < done.len() {
            assert(is_word(done[k]));
        }
    }
}

/// The characters of a text that are not whitespace, in order.
pub open spec fn without_spaces(text: Seq<char>) -> Seq<char>
    decreases text.len(),
{
    if text.len() == 0 {
        Seq::empty()
    } else if class_of(text.last()) == CharClass::Space {
        without_spaces(text.drop_last())
    } else {
        without_spaces(text.drop_last()).push(text.last())
    }
}

/// The characters of a list of words, word after word.
pub open spec fn concat(words: Seq<Seq<char>>) -> Seq<char>
    decreases words.len(),
{
    if words.len() == 0 {
        Seq::empty()
    } else {
        concat(words.drop_last()) + words.last()
    }
}

/// Splitting loses nothing but whitespace: the words of a text, one after
/// the other, are its characters without the whitespace; and while a text
/// is read, the same holds of the finished words and the word in progress.
pub proof fn lemma_split_words_keeps_characters(text: Seq<char>)
    ensures
        concat(scan(text).0) + scan(text).1 == without_spaces(text),
        concat(split_words_spec(text)) == without_spaces(text),
    decreases text.len(),
{
    if text.len() == 0 {
        assert(concat(scan(text).0) + scan(text).1 =~= Seq::<char>::empty());
    } else {
        lemma_split_words_keeps_characters(text.drop_last());
        let (done, current) = scan(text.drop_last());
        let c = text.last();
        let flushed = flush(done, current);
        if current.len() > 0 {
            assert(flushed.drop_last() =~= done);
        } else {
            assert(concat(done) + current =~= concat(done));
        }
        assert(concat(flushed) == concat(done) + current);
        match class_of(c) {
            CharClass::Space => {
                assert(concat(flushed) + Seq::<char>::empty() =~= concat(flushed));
            },
            CharClass::Punct => {
                let next = flushed.push(seq![c]);
                assert(next.drop_last() =~= flushed);
                assert(concat(next) + Seq::<char>::empty() =~= concat(flushed).push(c));
            },
            CharClass::Word => {
                assert(concat(done) + current.push(c) =~= (concat(done) + current).push(c));
            },
        }
    }
    let (done, current) = scan(text);
    if current.len() > 0 {
        assert(flush(done, current).drop_last() =~= done);
    } else {
        assert(concat(done) + current =~= concat(done));
    }
}

/// Reading letters and digits only finishes no word.
pub proof fn lemma_scan_word_chars(word: Seq<char>)
    requires
        all_word_chars(word),
    ensures
        scan(word) == (Seq::<Seq<char>>::empty(), word),
    decreases word.len(),
{
    if word.len() == 0 {
        assert(word =~= Seq::<char>::empty());
    } else {
        let front = word.drop_last();
        assert forall|i: int| 0 <= i < front.len() implies class_of(#[trigger] front[i])
            == CharClass::Word by {
            assert(front[i] == word[i]);
        }
        lemma_scan_word_chars(front);
        assert(class_of(word[word.len() - 1]) == CharClass::Word);
        assert(front.push(word.last()) =~= word);
    }
}

/// A well-shaped word is split into itself.
pub proof fn lemma_word_is_fixed(word: Seq<char>)
    requires
        is_word(word),
    ensures
        split_words_spec(word) == seq![word],
{
    if all_word_chars(word) {
        lemma_scan_word_chars(word);
        assert(Seq::<Seq<char>>::empty().push(word) =~= seq![word]);
    } else {
        let c = word[0];
        assert(word.drop_last() =~= Seq::<char>::empty());
        assert(scan(word.drop_last()) == (Seq::<Seq<char>>::empty(), Seq::<char>::empty()));
        assert(word.last() == c);
        assert(seq![c] =~= word);
        assert(Seq::<Seq<char>>::empty().push(seq![c]) =~= seq![word]);
    }
}

/// Splitting is idempotent: each word that splitting a text produces is split
/// into itself alone.
pub proof fn lemma_split_words_idempotent(text: Seq<char>, k: int)
    requires
        0 <= k < split_words_spec(text).len(),
    ensures
        split_words_spec(split_words_spec(text)[k]) == seq![split_words_spec(text)[k]],
{
    lemma_split_words_shape(text);
    lemma_word_is_fixed(split_words_spec(text)[k]);
}

/// The words of a list written out with one separator between neighbours.
pub open spec fn joined(words: Seq<Seq<char>>, separator: char) -> Seq<char>
    decreases words.len(),
{
    if words.len() == 0 {
        Seq::empty()
    } else if words.len() == 1 {
        words[0]
    } else {
        joined(words.drop_last(), separator) + seq![separator] + words.last()
    }
}

/// Reading on through letters and digits only extends the word in progress.
pub proof fn lemma_scan_extend(text: Seq<char>, word: Seq<char>)
    requires
        all_word_chars(word),
    ensures
        scan(text + word) == (scan(text).0, scan(text).1 + word),
    decreases word.len(),
{
    if word.len() == 0 {
        assert(text + word =~= text);
        assert(scan(text).1 + word =~= scan(text).1);
    } else {
        let front = word.drop_last();
        assert forall|i: int| 0 <= i < front.len() implies class_of(#[trigger] front[i])
            == CharClass::Word by {
            assert(front[i] == word[i]);
        }
        lemma_scan_extend(text, front);
        assert((text + word).drop_last() =~= text + front);
        assert((text + word).last() == word[word.len() - 1]);
        assert(class_of(word[word.len() - 1]) == CharClass::Word);
        assert((scan(text).1 + front).push(word.last()) =~= scan(text).1 + word);
    }
}

/// Well-shaped words written out with a whitespace character between them
/// are split into the same words.
pub proof fn lemma_split_joined(words: Seq<Seq<char>>, separator: char)
    requires
        class_of(separator) == CharClass::Space,
        forall|k: int| 0 <= k < words.len() ==> is_word(#[trigger] words[k]),
    ensures
        split_words_spec(joined(words, separator)) == words,
    decreases words.len(),
{
    if words.len() == 0 {
        assert(words =~= Seq::<Seq<char>>::empty());
    } else if words.len() == 1 {
        lemma_word_is_fixed(words[0]);
        assert(words =~= seq![words[0]]);
    } else {
        let front = words.drop_last();
        let word = words.last();
        assert forall|k: int| 0 <= k < front.len() implies is_word(#[trigger] front[k]) by {
            assert(front[k] == words[k]);
        }
        lemma_split_joined(front, separator);
        assert(is_word(words[words.len() - 1]));
        let head = joined(front, separator) + seq![separator];
        assert(head.drop_last() =~= joined(front, separator));
        assert(head.last() == separator);
        assert(scan(head) == (front, Seq::<char>::empty()));
        if all_word_chars(word) {
            lemma_scan_extend(head, word);
            assert(Seq::<char>::empty() + word =~= word);
        } else {
            let c = word[0];
            assert(word =~= seq![c]);
            assert((head + word).drop_last() =~= head);
            assert((head + word).last() == c);
        }
        assert(front.push(word) =~= words);
    }
}

/// Splitting is idempotent on whole texts: writing the words of a text out
/// with a space between them and splitting again gives the same words.
pub proof fn lemma_split_words_idempotent_text(text: Seq<char>)
    ensures
        split_words_spec(joined(split_words_spec(text), ' ')) == split_words_spec(text),
{
    lemma_split_words_shape(text);
    lemma_split_joined(split_words_spec(text), ' ');
}

/// Normalizing already-normalized text changes nothing: the tokens of a text,
/// written out with a space between them, normalize to the same tokens,
/// whenever character folding changes no word of that written-out text. That
/// holds in particular where folding leaves it as it is, which `is_folded`
/// tests.
pub proof fn lemma_normalize_idempotent(text: Seq<char>)
    requires
        normalize_spec(joined(normalize_spec(text), ' ')) == split_words_spec(
            joined(normalize_spec(text), ' '),
        ),
    ensures
        normalize_spec(joined(normalize_spec(text), ' ')) == normalize_spec(text),
{
    lemma_split_words_idempotent_text(bert_folded(text));
}

/// Splits folded text into words.
pub fn split_words(text: &Vec<char>) -> (r: Vec<Vec<char>>)
    ensures
        tokens_view(r@) == split_words_spec(text@),
{
    let mut done: Vec<Vec<char>> = Vec::new();
    let mut current: Vec<char> = Vec::new();
    let mut i: usize = 0;
    assert(tokens_view(done@) =~= Seq::<Seq<char>>::empty());
    while i < text.len()
        invariant
            i <= text.len(),
            (tokens_view(done@), current@) == scan(text@.take(i as int)),
        decreases text.len() - i,
    {
        let c = text[i];
        let ghost before = tokens_view(done@);
        let ghost run = current@;
        proof {
            assert(text@.take(i + 1).drop_last() =~= text@.take(i as int));
            assert(text@.take(i + 1).last() == c);
        }
        match classify(c) {
            CharClass::Space => {
                if current.len() > 0 {
                    done.push(current);
                    current = Vec::new();
                }
                assert(tokens_view(done@) =~= flush(before, run));
            },
            CharClass::Punct => {
                if current.len() > 0 {
                    done.push(current);
                    current = Vec::new();
                }
                let single = vec![c];
                assert(single@ =~= seq![c]);
                done.push(single);
                assert(tokens_view(done@) =~= flush(before, run).push(seq![c]));
            },
            CharClass::Word => {
                current.push(c);
            },
        }
        i += 1;
    }
    assert(text@.take(text.len() as int) =~= text@);
    let ghost before = tokens_view(done@);
    let ghost run = current@;
    if current.len() > 0 {
        done.push(current);
    }
    assert(tokens_view(done@) =~= flush(before, run));
    done
}

/// Normalizes a raw text into word-level tokens: folds its characters, then
/// splits the result into words. Always succeeds.
pub fn normalize(text: &str) -> (r: Result<Vec<Vec<char>>, BertErrors>)
    ensures
        r matches Ok(words) && tokens_view(words@) == normalize_spec(text@),
{
    match fold_text(text) {
        Some(folded) => Ok(split_words(&folded)),
        None => Err(BertErrors::TokenizerError),
    }
}

} // verus!
