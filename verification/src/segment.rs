//! Greedy longest-match-first segmentation of a word into vocabulary pieces.

use vstd::prelude::*;
use crate::vocab::{lookup, tokens_view, unk_token, Vocabulary};

verus! {

/// The marker that starts every piece but the first of a word, `##`.
pub open spec fn marker() -> Seq<char> {
    seq!['#', '#']
}

/// The token for the characters `start..end` of `word`: the characters
/// themselves at the start of the word, marked as a continuation elsewhere.
pub open spec fn piece(word: Seq<char>, start: int, end: int) -> Seq<char> {
    if start > 0 {
        marker() + word.subrange(start, end)
    } else {
        word.subrange(start, end)
    }
}

/// The largest `e` with `start < e <= end` for which the piece `start..e` is
/// in the vocabulary, or `start` where there is none.
pub open spec fn longest_match(entries: Seq<Seq<char>>, word: Seq<char>, start: int, end: int) -> int
    decreases end - start,
{
    if end <= start {
        start
    } else if lookup(entries, piece(word, start, end)) is Some {
        end
    } else {
        longest_match(entries, word, start, end - 1)
    }
}

/// The pieces of `word` from `start` on, or `None` where at some position no
/// piece matches.
pub open spec fn pieces_from(entries: Seq<Seq<char>>, word: Seq<char>, start: int) -> Option<
    Seq<Seq<char>>,
>
    decreases word.len() - start,
    via pieces_from_terminates
{
    if start >= word.len() {
        Some(Seq::empty())
    } else {
        let end = longest_match(entries, word, start, word.len() as int);
        if end <= start {
            None
        } else {
            match pieces_from(entries, word, end) {
                Some(rest) => Some(seq![piece(word, start, end)] + rest),
                None => None,
            }
        }
    }
}

#[via_fn]
proof fn pieces_from_terminates(entries: Seq<Seq<char>>, word: Seq<char>, start: int) {
    if start < word.len() {
        lemma_longest_match(entries, word, start, word.len() as int);
    }
}

/// The tokens that a word becomes: its pieces, or the single unknown token
/// where it cannot be split into pieces. An empty word becomes no token.
pub open spec fn segment_spec(entries: Seq<Seq<char>>, word: Seq<char>) -> Seq<Seq<char>> {
    match pieces_from(entries, word, 0) {
        Some(pieces) => pieces,
        None => seq![unk_token()],
    }
}

/// The tokens of a list of words, word after word.
pub open spec fn segment_words_spec(entries: Seq<Seq<char>>, words: Seq<Seq<char>>) -> Seq<
    Seq<char>,
>
    decreases words.len(),
{
    if words.len() == 0 {
        Seq::empty()
    } else {
        segment_words_spec(entries, words.drop_last()) + segment_spec(entries, words.last())
    }
}

/// The characters that a list of pieces spells: the first piece as it is
/// when `initial`, every other piece without its marker.
pub open spec fn spelled(pieces: Seq<Seq<char>>, initial: bool) -> Seq<char>
    decreases pieces.len(),
{
    if pieces.len() == 0 {
        Seq::empty()
    } else {
        let head = if initial {
            pieces[0]
        } else {
            pieces[0].skip(2)
        };
        head + spelled(pieces.skip(1), false)
    }
}

/// A match lies within the range searched and is a vocabulary entry.
pub proof fn lemma_longest_match(entries: Seq<Seq<char>>, word: Seq<char>, start: int, end: int)
    requires
        start <= end,
    ensures
        start <= longest_match(entries, word, start, end) <= end,
        longest_match(entries, word, start, end) > start ==> lookup(
            entries,
            piece(word, start, longest_match(entries, word, start, end)),
        ) is Some,
        forall|e: int|
            longest_match(entries, word, start, end) < e <= end ==> lookup(
                entries,
                #[trigger] piece(word, start, e),
            ) is None,
    decreases end - start,
{
    if end > start && lookup(entries, piece(word, start, end)) is None {
        lemma_longest_match(entries, word, start, end - 1);
    }
}

/// A word none of whose prefixes is in the vocabulary, above all one none of
/// whose characters is, becomes exactly one unknown token.
pub proof fn lemma_unmatched_word_is_unknown(entries: Seq<Seq<char>>, word: Seq<char>)
    requires
        word.len() > 0,
        forall|end: int| 0 < end <= word.len() ==> lookup(entries, word.subrange(0, end)) is None,
    ensures
        segment_spec(entries, word) == seq![unk_token()],
{
    let len = word.len() as int;
    lemma_longest_match(entries, word, 0, len);
    let e = longest_match(entries, word, 0, len);
    if e > 0 {
        assert(piece(word, 0, e) == word.subrange(0, e));
    }
}

/// The pieces found from `start` on spell the rest of the word.
pub proof fn lemma_pieces_spell_suffix(entries: Seq<Seq<char>>, word: Seq<char>, start: int)
    requires
        0 <= start <= word.len(),
        pieces_from(entries, word, start) is Some,
    ensures
        spelled(pieces_from(entries, word, start).unwrap(), start == 0) == word.subrange(
            start,
            word.len() as int,
        ),
    decreases word.len() - start,
{
    let len = word.len() as int;
    let pieces = pieces_from(entries, word, start).unwrap();
    if start >= len {
        assert(word.subrange(start, len) =~= Seq::<char>::empty());
    } else {
        let end = longest_match(entries, word, start, len);
        lemma_longest_match(entries, word, start, len);
        let rest = pieces_from(entries, word, end).unwrap();
        lemma_pieces_spell_suffix(entries, word, end);
        let first = piece(word, start, end);
        assert(pieces == seq![first] + rest);
        assert(pieces[0] == first);
        assert(pieces.skip(1) =~= rest);
        let head = if start == 0 {
            first
        } else {
            first.skip(2)
        };
        assert(head =~= word.subrange(start, end));
        assert(word.subrange(start, end) + word.subrange(end, len) =~= word.subrange(start, len));
    }
}

/// Joining the pieces of a word, each continuation piece without its marker,
/// gives the word back, whenever the word was not replaced by the unknown
/// token.
pub proof fn lemma_segment_round_trip(entries: Seq<Seq<char>>, word: Seq<char>)
    requires
        pieces_from(entries, word, 0) is Some,
    ensures
        spelled(segment_spec(entries, word), true) == word,
{
    lemma_pieces_spell_suffix(entries, word, 0);
    assert(word.subrange(0, word.len() as int) =~= word);
}

/// Whether a token is marked as the continuation of a word.
pub open spec fn is_continuation(token: Seq<char>) -> bool {
    token.len() >= 2 && token[0] == '#' && token[1] == '#'
}

/// The words that a token sequence spells: a continuation piece, without
/// its marker, extends the word before it; any other token starts a word.
pub open spec fn decode_spec(tokens: Seq<Seq<char>>) -> Seq<Seq<char>>
    decreases tokens.len(),
{
    if tokens.len() == 0 {
        Seq::empty()
    } else {
        let front = decode_spec(tokens.drop_last());
        let token = tokens.last();
        if is_continuation(token) && front.len() > 0 {
            front.drop_last().push(front.last() + token.skip(2))
        } else {
            front.push(token)
        }
    }
}

/// Whether a word can be decoded after segmentation: it is not empty, does
/// not itself begin with the marker, and splits into vocabulary pieces.
pub open spec fn decodable(entries: Seq<Seq<char>>, word: Seq<char>) -> bool {
    &&& word.len() > 0
    &&& !is_continuation(word)
    &&& pieces_from(entries, word, 0) is Some
}

/// The pieces found from `start` on: there is one unless the word ends at
/// `start`, each is in the vocabulary, and each is marked as a continuation
/// but the one that starts the word.
pub proof fn lemma_pieces_shape(entries: Seq<Seq<char>>, word: Seq<char>, start: int)
    requires
        0 <= start <= word.len(),
        pieces_from(entries, word, start) is Some,
    ensures
        start < word.len() ==> pieces_from(entries, word, start).unwrap().len() > 0,
        start < word.len() && start == 0 && !is_continuation(word) ==> !is_continuation(
            pieces_from(entries, word, start).unwrap()[0],
        ),
        forall|j: int|
            0 <= j < pieces_from(entries, word, start).unwrap().len() ==> lookup(
                entries,
                #[trigger] pieces_from(entries, word, start).unwrap()[j],
            ) is Some,
        forall|j: int|
            0 <= j < pieces_from(entries, word, start).unwrap().len() && (j > 0 || start > 0)
                ==> is_continuation(#[trigger] pieces_from(entries, word, start).unwrap()[j]),
    decreases word.len() - start,
{
    let len = word.len() as int;
    let pieces = pieces_from(entries, word, start).unwrap();
    if start < len {
        let end = longest_match(entries, word, start, len);
        lemma_longest_match(entries, word, start, len);
        let rest = pieces_from(entries, word, end).unwrap();
        lemma_pieces_shape(entries, word, end);
        let first = piece(word, start, end);
        assert(pieces == seq![first] + rest);
        assert(pieces[0] == first);
        if start == 0 && is_continuation(first) {
            assert(first[0] == word[0] && first[1] == word[1]);
        }
        if start > 0 {
            assert(first[0] == marker()[0] && first[1] == marker()[1]);
        }
        assert forall|j: int| 0 <= j < pieces.len() implies lookup(entries, #[trigger] pieces[j])
            is Some by {
            if j > 0 {
                assert(pieces[j] == rest[j - 1]);
            }
        }
        assert forall|j: int| 0 <= j < pieces.len() && (j > 0 || start > 0) implies is_continuation(
            #[trigger] pieces[j],
        ) by {
            if j > 0 {
                assert(pieces[j] == rest[j - 1]);
            }
        }
    }
}

/// One more piece at the end spells its characters at the end.
pub proof fn lemma_spelled_push(pieces: Seq<Seq<char>>, token: Seq<char>, initial: bool)
    ensures
        spelled(pieces.push(token), initial) == spelled(pieces, initial) + if pieces.len() == 0
            && initial {
            token
        } else {
            token.skip(2)
        },
    decreases pieces.len(),
{
    let longer = pieces.push(token);
    if pieces.len() == 0 {
        assert(longer.skip(1) =~= Seq::<Seq<char>>::empty());
        assert(longer[0] == token);
        assert(spelled(longer.skip(1), false) =~= Seq::<char>::empty());
        assert(spelled(pieces, initial) =~= Seq::<char>::empty());
        assert(spelled(longer, initial) =~= if initial {
            token
        } else {
            token.skip(2)
        });
    } else {
        lemma_spelled_push(pieces.skip(1), token, false);
        assert(longer.skip(1) =~= pieces.skip(1).push(token));
        assert(longer[0] == pieces[0]);
        let head = if initial {
            pieces[0]
        } else {
            pieces[0].skip(2)
        };
        assert(spelled(longer, initial) =~= head + (spelled(pieces.skip(1), false) + token.skip(2)));
        assert(spelled(pieces, initial) + token.skip(2) =~= head + (spelled(pieces.skip(1), false)
            + token.skip(2)));
    }
}

/// The pieces of one word, put behind any tokens, decode to one more word:
/// the characters that the pieces spell.
pub proof fn lemma_decode_one_word(tokens: Seq<Seq<char>>, pieces: Seq<Seq<char>>)
    requires
        pieces.len() > 0,
        !is_continuation(pieces[0]),
        forall|j: int| 0 < j < pieces.len() ==> is_continuation(#[trigger] pieces[j]),
    ensures
        decode_spec(tokens + pieces) == decode_spec(tokens).push(spelled(pieces, true)),
    decreases pieces.len(),
{
    let all = tokens + pieces;
    assert(all.drop_last() =~= tokens + pieces.drop_last());
    assert(all.last() == pieces.last());
    if pieces.len() == 1 {
        assert(pieces.drop_last() =~= Seq::<Seq<char>>::empty());
        assert(tokens + pieces.drop_last() =~= tokens);
        lemma_spelled_push(pieces.drop_last(), pieces[0], true);
        assert(pieces.drop_last().push(pieces[0]) =~= pieces);
        assert(Seq::<char>::empty() + pieces[0] =~= pieces[0]);
    } else {
        let shorter = pieces.drop_last();
        assert(shorter[0] == pieces[0]);
        assert forall|j: int| 0 < j < shorter.len() implies is_continuation(
            #[trigger] shorter[j],
        ) by {
            assert(shorter[j] == pieces[j]);
        }
        lemma_decode_one_word(tokens, shorter);
        lemma_spelled_push(shorter, pieces.last(), true);
        assert(shorter.push(pieces.last()) =~= pieces);
        assert(is_continuation(pieces[pieces.len() - 1]));
        let front = decode_spec(tokens).push(spelled(shorter, true));
        assert(front.drop_last() =~= decode_spec(tokens));
    }
}

/// Segmenting a list of words and decoding the tokens gives the words back,
/// whenever every word is decodable: none was replaced by the unknown token.
pub proof fn lemma_decode_segmented_words(entries: Seq<Seq<char>>, words: Seq<Seq<char>>)
    requires
        forall|k: int| 0 <= k < words.len() ==> decodable(entries, #[trigger] words[k]),
    ensures
        decode_spec(segment_words_spec(entries, words)) == words,
    decreases words.len(),
{
    if words.len() == 0 {
        assert(words =~= Seq::<Seq<char>>::empty());
    } else {
        let front = words.drop_last();
        let word = words.last();
        assert forall|k: int| 0 <= k < front.len() implies decodable(
            entries,
            #[trigger] front[k],
        ) by {
            assert(front[k] == words[k]);
        }
        lemma_decode_segmented_words(entries, front);
        assert(decodable(entries, words[words.len() - 1]));
        let pieces = segment_spec(entries, word);
        lemma_pieces_shape(entries, word, 0);
        lemma_segment_round_trip(entries, word);
        lemma_decode_one_word(segment_words_spec(entries, front), pieces);
        assert(front.push(word) =~= words);
    }
}

/// The token for the characters `start..end` of `word`.
fn make_piece(word: &Vec<char>, start: usize, end: usize) -> (r: Vec<char>)
    requires
        start <= end <= word.len(),
    ensures
        r@ == piece(word@, start as int, end as int),
{
    let mut out: Vec<char> = Vec::new();
    if start > 0 {
        out.push('#');
        out.push('#');
    }
    let ghost prefix = out@;
    assert(prefix =~= if start > 0 {
        marker()
    } else {
        Seq::<char>::empty()
    });
    let mut i: usize = start;
    while i < end
        invariant
            start <= i <= end <= word.len(),
            out@ == prefix + word@.subrange(start as int, i as int),
        decreases end - i,
    {
        out.push(word[i]);
        i += 1;
        assert(out@ =~= prefix + word@.subrange(start as int, i as int));
    }
    assert(out@ =~= piece(word@, start as int, end as int));
    out
}

/// The longest piece of `word` at `start` that the vocabulary has, with the
/// position where it ends.
fn longest_piece(word: &Vec<char>, vocab: &Vocabulary, start: usize) -> (r: Option<
    (usize, Vec<char>),
>)
    requires
        start < word.len(),
    ensures
        match r {
            Some((end, token)) => {
                &&& start < end <= word.len()
                &&& end == longest_match(vocab.entries(), word@, start as int, word@.len() as int)
                &&& token@ == piece(word@, start as int, end as int)
            },
            None => longest_match(vocab.entries(), word@, start as int, word@.len() as int)
                <= start,
        },
{
    let mut end: usize = word.len();
    while end > start
        invariant
            start <= end <= word.len(),
            longest_match(vocab.entries(), word@, start as int, word@.len() as int)
                == longest_match(vocab.entries(), word@, start as int, end as int),
        decreases end,
    {
        let token = make_piece(word, start, end);
        if vocab.contains(&token) {
            return Some((end, token));
        }
        end -= 1;
    }
    None
}

/// Splits one word into vocabulary pieces, greedily taking the longest piece
/// at each position; a word that cannot be split becomes the unknown token.
pub fn segment(word: &Vec<char>, vocab: &Vocabulary) -> (r: Vec<Vec<char>>)
    ensures
        tokens_view(r@) == segment_spec(vocab.entries(), word@),
{
    let ghost entries = vocab.entries();
    let mut pieces: Vec<Vec<char>> = Vec::new();
    let mut start: usize = 0;
    while start < word.len()
        invariant
            start <= word.len(),
            entries == vocab.entries(),
            pieces_from(entries, word@, 0) == match pieces_from(entries, word@, start as int) {
                Some(rest) => Some(tokens_view(pieces@) + rest),
                None => None,
            },
        decreases word.len() - start,
    {
        let ghost before = tokens_view(pieces@);
        match longest_piece(word, vocab, start) {
            Some((end, token)) => {
                let ghost first = token@;
                pieces.push(token);
                proof {
                    assert(tokens_view(pieces@) =~= before.push(first));
                    match pieces_from(entries, word@, end as int) {
                        Some(rest) => {
                            assert(before + (seq![first] + rest) =~= before.push(first) + rest);
                        },
                        None => {},
                    }
                }
                start = end;
            },
            None => {
                let unknown = vec![vec!['[', 'U', 'N', 'K', ']']];
                assert(tokens_view(unknown@) =~= seq![unk_token()]);
                return unknown;
            },
        }
    }
    assert(tokens_view(pieces@) + Seq::<Seq<char>>::empty() =~= tokens_view(pieces@));
    pieces
}

/// Splits every word of a list into pieces and chains the results.
pub fn segment_words(words: &Vec<Vec<char>>, vocab: &Vocabulary) -> (r: Vec<Vec<char>>)
    ensures
        tokens_view(r@) == segment_words_spec(vocab.entries(), tokens_view(words@)),
{
    let ghost entries = vocab.entries();
    let ghost all = tokens_view(words@);
    let mut out: Vec<Vec<char>> = Vec::new();
    let mut i: usize = 0;
    while i < words.len()
        invariant
            i <= words.len(),
            entries == vocab.entries(),
            all == tokens_view(words@),
            tokens_view(out@) == segment_words_spec(entries, all.take(i as int)),
        decreases words.len() - i,
    {
        let mut pieces = segment(&words[i], vocab);
        let ghost before = tokens_view(out@);
        let ghost added = tokens_view(pieces@);
        out.append(&mut pieces);
        i += 1;
        proof {
            assert(tokens_view(out@) =~= before + added);
            assert(all.take(i as int).drop_last() =~= all.take(i - 1));
            assert(all.take(i as int).last() == words[i - 1]@);
        }
    }
    assert(all.take(words.len() as int) =~= all);
    out
}

} // verus!
