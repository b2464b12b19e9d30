//! The whole encoding of a sentence, and the batch run that keeps labels in
//! sentence order and stops at the first failure.

use vstd::prelude::*;
use crate::assemble::{assemble, assembled_ids, assembled_mask, EncodeConfig, Encoded};
use crate::bert::BertErrors;
use crate::normalize::{split_words, split_words_spec};
use crate::segment::{segment_words, segment_words_spec};
use crate::text::{bert_folded, fold_text};
use crate::vocab::Vocabulary;

verus! {

/// A vocabulary together with the assembly configuration: everything needed
/// to encode sentences. Built once and never changed.
pub struct BertTokenizer {
    pub vocab: Vocabulary,
    pub config: EncodeConfig,
}

impl BertTokenizer {
    /// The subword tokens of folded text.
    pub open spec fn tokens_of(&self, folded: Seq<char>) -> Seq<Seq<char>> {
        segment_words_spec(self.vocab.entries(), split_words_spec(folded))
    }

    /// The ids that folded text is encoded as.
    pub open spec fn encoded_ids(&self, folded: Seq<char>) -> Seq<u32> {
        assembled_ids(&self.vocab, self.tokens_of(folded), self.config)
    }

    /// The attention mask that folded text is encoded with.
    pub open spec fn encoded_mask(&self, folded: Seq<char>) -> Seq<u32> {
        assembled_mask(self.tokens_of(folded).len() as int, self.config)
    }

    /// Joins a vocabulary and a configuration.
    pub fn new(vocab: Vocabulary, config: EncodeConfig) -> (r: BertTokenizer)
        ensures
            r.vocab == vocab,
            r.config == config,
    {
        BertTokenizer { vocab, config }
    }

    /// Encodes text whose characters are already folded: splits it into
    /// words, the words into subword tokens, and assembles those.
    pub fn encode_folded(&self, folded: &Vec<char>) -> (r: Encoded)
        ensures
            r.ids@ == self.encoded_ids(folded@),
            r.mask@ == self.encoded_mask(folded@),
            r.ids@.len() == r.mask@.len(),
            self.config.pad_enabled && self.config.truncate_enabled && self.config.max_length >= 2
                ==> r.ids@.len() == self.config.max_length,
    {
        let words = split_words(folded);
        let tokens = segment_words(&words, &self.vocab);
        assemble(&tokens, &self.vocab, self.config)
    }

    /// Encodes a raw sentence: folds its characters, then encodes the folded
    /// text. Always succeeds, and leaves the tokenizer as it is: the same
    /// sentence is encoded the same way every time.
    pub fn encode(&self, sentence: &str) -> (r: Result<Encoded, BertErrors>)
        ensures
            r matches Ok(encoded) && {
                &&& encoded.ids@ == self.encoded_ids(bert_folded(sentence@))
                &&& encoded.mask@ == self.encoded_mask(bert_folded(sentence@))
                &&& encoded.ids@.len() == encoded.mask@.len()
                &&& self.config.pad_enabled && self.config.truncate_enabled
                    && self.config.max_length >= 2 ==> encoded.ids@.len()
                    == self.config.max_length
            },
    {
        match fold_text(sentence) {
            Some(folded) => Ok(self.encode_folded(&folded)),
            None => Err(BertErrors::TokenizerError),
        }
    }
}

/// What the caller of a batch run has to do next.
#[derive(Debug)]
pub enum Action {
    /// Run the model on this encoded sentence and record the outcome.
    Predict(Encoded),
    /// Every sentence has its label: take the labels.
    Finish,
    /// The run has failed: stop, there are no labels.
    Abort(BertErrors),
}

/// A run over a batch of sentences, one at a time and in order. The run
/// hands out each sentence encoded, takes the model's label for it, and ends
/// at the first failure.
pub struct BatchRun {
    sentences: Vec<String>,
    labels: Vec<i64>,
    failure: Option<BertErrors>,
}

impl BatchRun {
    #[verifier::type_invariant]
    closed spec fn inv(&self) -> bool {
        self.labels@.len() <= self.sentences@.len()
    }

    /// The sentences of the batch, as character sequences.
    pub closed spec fn sentences(&self) -> Seq<Seq<char>> {
        Seq::new(self.sentences@.len(), |i: int| self.sentences@[i]@)
    }

    /// The labels recorded so far, the label of sentence `i` at position `i`.
    pub closed spec fn labels(&self) -> Seq<i64> {
        self.labels@
    }

    /// The failure that ended the run, if any.
    pub closed spec fn failure(&self) -> Option<BertErrors> {
        self.failure
    }

    /// Whether a sentence is still waiting for its label.
    pub open spec fn pending(&self) -> bool {
        self.failure() is None && self.labels().len() < self.sentences().len()
    }

    /// Whether every sentence has its label and nothing has failed.
    pub open spec fn complete(&self) -> bool {
        self.failure() is None && self.labels().len() == self.sentences().len()
    }

    /// Starts a run over `sentences`, with no label yet.
    pub fn new(sentences: Vec<String>) -> (r: BatchRun)
        ensures
            r.sentences() == Seq::new(sentences@.len(), |i: int| sentences@[i]@),
            r.labels() == Seq::<i64>::empty(),
            r.failure() is None,
    {
        BatchRun { sentences, labels: Vec::new(), failure: None }
    }

    /// Says what to do next. While a sentence is pending it is encoded and
    /// handed out; a failed run aborts with its failure; a complete run
    /// finishes. The run itself is left as it was.
    pub fn next(self, tokenizer: &BertTokenizer) -> (r: (BatchRun, Action))
        ensures
            r.0.sentences() == self.sentences(),
            r.0.labels() == self.labels(),
            r.0.failure() == self.failure(),
            r.0.labels().len() <= r.0.sentences().len(),
            self.pending() ==> r.1 is Predict,
            self.complete() ==> r.1 is Finish,
            self.failure() is Some ==> r.1 is Abort,
            match r.1 {
                Action::Predict(encoded) => {
                    let folded = bert_folded(self.sentences()[self.labels().len() as int]);
                    &&& self.pending()
                    &&& encoded.ids@ == tokenizer.encoded_ids(folded)
                    &&& encoded.mask@ == tokenizer.encoded_mask(folded)
                    &&& encoded.ids@.len() == encoded.mask@.len()
                },
                Action::Finish => self.complete(),
                Action::Abort(e) => self.failure() == Some(e),
            },
    {
        proof {
            use_type_invariant(&self);
        }
        if let Some(e) = self.failure {
            return (self, Action::Abort(e));
        }
        let at: usize = self.labels.len();
        if at >= self.sentences.len() {
            return (self, Action::Finish);
        }
        match tokenizer.encode(self.sentences[at].as_str()) {
            Ok(encoded) => (self, Action::Predict(encoded)),
            // Encoding does not fail; the type asks for this arm.
            Err(e) => {
                let failed = BatchRun {
                    sentences: self.sentences,
                    labels: self.labels,
                    failure: Some(e),
                };
                (failed, Action::Abort(e))
            },
        }
    }

    /// Records the model's outcome for the pending sentence: a label is
    /// appended, a failure ends the run. A run with no pending sentence is
    /// left as it is.
    pub fn record(self, outcome: Result<i64, BertErrors>) -> (r: BatchRun)
        ensures
            r.sentences() == self.sentences(),
            r.labels().len() <= r.sentences().len(),
            !self.pending() ==> r.labels() == self.labels() && r.failure() == self.failure(),
            self.pending() ==> match outcome {
                Ok(label) => r.labels() == self.labels().push(label) && r.failure() is None,
                Err(e) => r.labels() == self.labels() && r.failure() == Some(e),
            },
    {
        proof {
            use_type_invariant(&self);
        }
        if self.failure.is_none() && self.labels.len() < self.sentences.len() {
            match outcome {
                Ok(label) => {
                    let mut labels = self.labels;
                    labels.push(label);
                    BatchRun { sentences: self.sentences, labels, failure: None }
                },
                Err(e) => BatchRun {
                    sentences: self.sentences,
                    labels: self.labels,
                    failure: Some(e),
                },
            }
        } else {
            self
        }
    }

    /// Ends the run: the labels, one per sentence and in sentence order, if
    /// the run is complete; nothing if it failed or is unfinished.
    pub fn into_labels(self) -> (r: Option<Vec<i64>>)
        ensures
            match r {
                Some(labels) => self.complete() && labels@ == self.labels() && labels@.len()
                    == self.sentences().len(),
                None => !self.complete(),
            },
    {
        proof {
            use_type_invariant(&self);
        }
        if self.failure.is_none() && self.labels.len() == self.sentences.len() {
            Some(self.labels)
        } else {
            None
        }
    }
}

} // verus!
