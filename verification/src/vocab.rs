//! The vocabulary: tokens in file order, each token's position being its id.

use vstd::prelude::*;
use crate::text::{chars_of, is_whitespace, same_chars, unicode_whitespace};

verus! {

/// The classification token, `[CLS]`.
pub open spec fn cls_token() -> Seq<char> {
    seq!['[', 'C', 'L', 'S', ']']
}

/// The separator token, `[SEP]`.
pub open spec fn sep_token() -> Seq<char> {
    seq!['[', 'S', 'E', 'P', ']']
}

/// The padding token, `[PAD]`.
pub open spec fn pad_token() -> Seq<char> {
    seq!['[', 'P', 'A', 'D', ']']
}

/// The token that stands for an unknown word, `[UNK]`.
pub open spec fn unk_token() -> Seq<char> {
    seq!['[', 'U', 'N', 'K', ']']
}

/// The position of `token` among `entries`, the last one where it occurs more
/// than once (a later line replaces an earlier one), or `None` where it does
/// not occur.
pub open spec fn lookup(entries: Seq<Seq<char>>, token: Seq<char>) -> Option<int>
    decreases entries.len(),
{
    if entries.len() == 0 {
        None
    } else if entries.last() == token {
        Some(entries.len() - 1)
    } else {
        lookup(entries.drop_last(), token)
    }
}

/// `lookup` finds a token exactly when it occurs, and then at its last
/// position.
pub proof fn lemma_lookup(entries: Seq<Seq<char>>, token: Seq<char>)
    ensures
        match lookup(entries, token) {
            Some(i) => 0 <= i < entries.len() && entries[i] == token && forall|j: int|
                i < j < entries.len() ==> entries[j] != token,
            None => forall|j: int| 0 <= j < entries.len() ==> entries[j] != token,
        },
    decreases entries.len(),
{
    if entries.len() > 0 && entries.last() != token {
        let front = entries.drop_last();
        lemma_lookup(front, token);
        assert forall|j: int| 0 <= j < front.len() implies front[j] == entries[j] by {}
        match lookup(front, token) {
            Some(i) => {
                assert forall|j: int| i < j < entries.len() implies entries[j] != token by {
                    if j < front.len() {
                        assert(front[j] != token);
                    }
                }
            },
            None => {
                assert forall|j: int| 0 <= j < entries.len() implies entries[j] != token by {
                    if j < front.len() {
                        assert(front[j] != token);
                    }
                }
            },
        }
    }
}

/// The character sequences that a vector of tokens stands for.
pub open spec fn tokens_view(tokens: Seq<Vec<char>>) -> Seq<Seq<char>> {
    Seq::new(tokens.len(), |i: int| tokens[i]@)
}

/// Why a vocabulary could not be built.
#[derive(Clone, Copy, Debug, PartialEq, Eq, Structural)]
pub enum VocabError {
    /// More tokens than ids of 32 bits.
    TooLarge,
    /// No `[CLS]` token.
    MissingCls,
    /// No `[SEP]` token.
    MissingSep,
    /// No `[PAD]` token.
    MissingPad,
    /// No `[UNK]` token.
    MissingUnk,
}

/// The error, if any, with which building a vocabulary from `entries` fails.
pub open spec fn build_error(entries: Seq<Seq<char>>) -> Option<VocabError> {
    if entries.len() > u32::MAX {
        Some(VocabError::TooLarge)
    } else if lookup(entries, cls_token()) is None {
        Some(VocabError::MissingCls)
    } else if lookup(entries, sep_token()) is None {
        Some(VocabError::MissingSep)
    } else if lookup(entries, pad_token()) is None {
        Some(VocabError::MissingPad)
    } else if lookup(entries, unk_token()) is None {
        Some(VocabError::MissingUnk)
    } else {
        None
    }
}

/// An immutable mapping from token to id. The id of a token is its position
/// in the list the vocabulary was built from.
pub struct Vocabulary {
    tokens: Vec<Vec<char>>,
    cls: u32,
    sep: u32,
    pad: u32,
    unk: u32,
}

/// A line without the whitespace at its end.
pub open spec fn trimmed(line: Seq<char>) -> Seq<char>
    decreases line.len(),
{
    if line.len() > 0 && unicode_whitespace(line.last()) {
        trimmed(line.drop_last())
    } else {
        line
    }
}

/// The state after reading the text of a vocabulary file from left to right:
/// the lines that a newline has ended, trimmed, and the characters of the
/// line in progress.
pub open spec fn line_scan(text: Seq<char>) -> (Seq<Seq<char>>, Seq<char>)
    decreases text.len(),
{
    if text.len() == 0 {
        (Seq::empty(), Seq::empty())
    } else {
        let (done, current) = line_scan(text.drop_last());
        if text.last() == '\n' {
            (done.push(trimmed(current)), Seq::empty())
        } else {
            (done, current.push(text.last()))
        }
    }
}

/// The lines of the text of a vocabulary file: cut at every newline, a last
/// line counting also where no newline ends it, each without the whitespace
/// at its end.
pub open spec fn text_lines(text: Seq<char>) -> Seq<Seq<char>> {
    let (done, current) = line_scan(text);
    if current.len() == 0 {
        done
    } else {
        done.push(trimmed(current))
    }
}

/// Drops the whitespace at the end of a line.
pub fn trim_end(line: Vec<char>) -> (r: Vec<char>)
    ensures
        r@ == trimmed(line@),
{
    let mut out = line;
    while out.len() > 0 && is_whitespace(out[out.len() - 1])
        invariant
            trimmed(out@) == trimmed(line@),
        decreases out.len(),
    {
        out.pop();
    }
    out
}

impl Vocabulary {
    /// The tokens of the vocabulary, by id.
    pub closed spec fn entries(&self) -> Seq<Seq<char>> {
        tokens_view(self.tokens@)
    }

    /// The invariant: ids fit in 32 bits, and the four special tokens are
    /// present with the ids recorded for them.
    #[verifier::type_invariant]
    pub closed spec fn wf(&self) -> bool {
        &&& self.tokens@.len() <= u32::MAX
        &&& lookup(self.entries(), cls_token()) == Some(self.cls as int)
        &&& lookup(self.entries(), sep_token()) == Some(self.sep as int)
        &&& lookup(self.entries(), pad_token()) == Some(self.pad as int)
        &&& lookup(self.entries(), unk_token()) == Some(self.unk as int)
    }

    /// The id of `token`, if the vocabulary has it.
    pub open spec fn spec_id_of(&self, token: Seq<char>) -> Option<u32> {
        match lookup(self.entries(), token) {
            Some(i) => Some(i as u32),
            None => None,
        }
    }

    /// Whether the vocabulary has `token`.
    pub open spec fn spec_contains(&self, token: Seq<char>) -> bool {
        lookup(self.entries(), token) is Some
    }

    /// The id of `[CLS]`.
    pub closed spec fn spec_cls_id(&self) -> u32 {
        self.cls
    }

    /// The id of `[SEP]`.
    pub closed spec fn spec_sep_id(&self) -> u32 {
        self.sep
    }

    /// The id of `[PAD]`.
    pub closed spec fn spec_pad_id(&self) -> u32 {
        self.pad
    }

    /// The id of `[UNK]`.
    pub closed spec fn spec_unk_id(&self) -> u32 {
        self.unk
    }

    /// The id that a token is encoded as: its own, or that of `[UNK]` where
    /// the vocabulary does not have it.
    pub open spec fn spec_id_or_unk(&self, token: Seq<char>) -> u32 {
        match self.spec_id_of(token) {
            Some(id) => id,
            None => self.spec_unk_id(),
        }
    }

    /// In a well-formed vocabulary the special ids are those that lookup
    /// gives for the special tokens, and every id is a position.
    pub proof fn lemma_special_ids(&self)
        requires
            self.wf(),
        ensures
            self.entries().len() <= u32::MAX,
            self.spec_id_of(cls_token()) == Some(self.spec_cls_id()),
            self.spec_id_of(sep_token()) == Some(self.spec_sep_id()),
            self.spec_id_of(pad_token()) == Some(self.spec_pad_id()),
            self.spec_id_of(unk_token()) == Some(self.spec_unk_id()),
    {
    }

    /// Builds a vocabulary from its tokens in id order. Fails when the list
    /// is too long for 32-bit ids or lacks one of the four special tokens.
    pub fn new(tokens: Vec<Vec<char>>) -> (r: Result<Vocabulary, VocabError>)
        ensures
            match r {
                Ok(v) => build_error(tokens_view(tokens@)) is None && v.wf() && v.entries()
                    == tokens_view(tokens@),
                Err(e) => build_error(tokens_view(tokens@)) == Some(e),
            },
    {
        if tokens.len() > u32::MAX as usize {
            return Err(VocabError::TooLarge);
        }
        let cls = match find_last(&tokens, &vec!['[', 'C', 'L', 'S', ']']) {
            Some(i) => i as u32,
            None => { return Err(VocabError::MissingCls); },
        };
        let sep = match find_last(&tokens, &vec!['[', 'S', 'E', 'P', ']']) {
            Some(i) => i as u32,
            None => { return Err(VocabError::MissingSep); },
        };
        let pad = match find_last(&tokens, &vec!['[', 'P', 'A', 'D', ']']) {
            Some(i) => i as u32,
            None => { return Err(VocabError::MissingPad); },
        };
        let unk = match find_last(&tokens, &vec!['[', 'U', 'N', 'K', ']']) {
            Some(i) => i as u32,
            None => { return Err(VocabError::MissingUnk); },
        };
        Ok(Vocabulary { tokens, cls, sep, pad, unk })
    }

    /// Builds a vocabulary from the lines of a vocabulary file, one token per
    /// line, the line number being the id.
    pub fn from_lines(lines: &Vec<String>) -> (r: Result<Vocabulary, VocabError>)
        ensures
            match r {
                Ok(v) => build_error(lines_view(lines@)) is None && v.wf() && v.entries()
                    == lines_view(lines@),
                Err(e) => build_error(lines_view(lines@)) == Some(e),
            },
    {
        let mut tokens: Vec<Vec<char>> = Vec::new();
        let mut i: usize = 0;
        while i < lines.len()
            invariant
                i <= lines.len(),
                tokens.len() == i,
                tokens_view(tokens@) == lines_view(lines@.take(i as int)),
            decreases lines.len() - i,
        {
            let ghost before = tokens_view(tokens@);
            let token = chars_of(lines[i].as_str());
            tokens.push(token);
            i += 1;
            proof {
                let after = tokens_view(tokens@);
                let want = lines_view(lines@.take(i as int));
                assert forall|j: int| 0 <= j < after.len() implies after[j] == want[j] by {
                    if j < i - 1 {
                        assert(before[j] == lines_view(lines@.take(i - 1))[j]);
                    }
                }
                assert(after =~= want);
            }
        }
        assert(lines@.take(lines.len() as int) =~= lines@);
        Vocabulary::new(tokens)
    }

    /// Builds a vocabulary from the text of a vocabulary file: one token per
    /// line, the line number being the id, whitespace at the end of a line
    /// not counting.
    pub fn from_text(content: &str) -> (r: Result<Vocabulary, VocabError>)
        ensures
            match r {
                Ok(v) => build_error(text_lines(content@)) is None && v.wf() && v.entries()
                    == text_lines(content@),
                Err(e) => build_error(text_lines(content@)) == Some(e),
            },
    {
        let text = chars_of(content);
        let mut tokens: Vec<Vec<char>> = Vec::new();
        let mut current: Vec<char> = Vec::new();
        let mut i: usize = 0;
        assert(tokens_view(tokens@) =~= Seq::<Seq<char>>::empty());
        while i < text.len()
            invariant
                i <= text.len(),
                (tokens_view(tokens@), current@) == line_scan(text@.take(i as int)),
            decreases text.len() - i,
        {
            let c = text[i];
            let ghost before = tokens_view(tokens@);
            let ghost run = current@;
            proof {
                assert(text@.take(i + 1).drop_last() =~= text@.take(i as int));
                assert(text@.take(i + 1).last() == c);
            }
            if c == '\n' {
                tokens.push(trim_end(current));
                current = Vec::new();
                assert(tokens_view(tokens@) =~= before.push(trimmed(run)));
            } else {
                current.push(c);
            }
            i += 1;
        }
        assert(text@.take(text.len() as int) =~= text@);
        let ghost before = tokens_view(tokens@);
        let ghost run = current@;
        if current.len() > 0 {
            tokens.push(trim_end(current));
            assert(tokens_view(tokens@) =~= before.push(trimmed(run)));
        }
        Vocabulary::new(tokens)
    }

    /// The number of tokens.
    pub fn len(&self) -> (r: usize)
        ensures
            r == self.entries().len(),
    {
        self.tokens.len()
    }

    /// The id of `token`, if the vocabulary has it.
    pub fn id_of(&self, token: &Vec<char>) -> (r: Option<u32>)
        ensures
            r == self.spec_id_of(token@),
    {
        proof {
            use_type_invariant(self);
        }
        match find_last(&self.tokens, token) {
            Some(i) => Some(i as u32),
            None => None,
        }
    }

    /// Whether the vocabulary has `token`.
    pub fn contains(&self, token: &Vec<char>) -> (r: bool)
        ensures
            r == self.spec_contains(token@),
    {
        find_last(&self.tokens, token).is_some()
    }

    /// The id that `token` is encoded as: its own, or that of `[UNK]`.
    pub fn id_or_unk(&self, token: &Vec<char>) -> (r: u32)
        ensures
            r == self.spec_id_or_unk(token@),
    {
        match self.id_of(token) {
            Some(id) => id,
            None => self.unk,
        }
    }

    /// The id of `[CLS]`.
    pub fn cls_id(&self) -> (r: u32)
        ensures
            r == self.spec_cls_id(),
            self.spec_id_of(cls_token()) == Some(r),
    {
        proof {
            use_type_invariant(self);
        }
        self.cls
    }

    /// The id of `[SEP]`.
    pub fn sep_id(&self) -> (r: u32)
        ensures
            r == self.spec_sep_id(),
            self.spec_id_of(sep_token()) == Some(r),
    {
        proof {
            use_type_invariant(self);
        }
        self.sep
    }

    /// The id of `[PAD]`.
    pub fn pad_id(&self) -> (r: u32)
        ensures
            r == self.spec_pad_id(),
            self.spec_id_of(pad_token()) == Some(r),
    {
        proof {
            use_type_invariant(self);
        }
        self.pad
    }

    /// The id of `[UNK]`.
    pub fn unk_id(&self) -> (r: u32)
        ensures
            r == self.spec_unk_id(),
            self.spec_id_of(unk_token()) == Some(r),
    {
        proof {
            use_type_invariant(self);
        }
        self.unk
    }
}

/// The character sequences of a list of lines.
pub open spec fn lines_view(lines: Seq<String>) -> Seq<Seq<char>> {
    Seq::new(lines.len(), |i: int| lines[i]@)
}

/// The last position of `token` among `tokens`.
fn find_last(tokens: &Vec<Vec<char>>, token: &Vec<char>) -> (r: Option<usize>)
    ensures
        match r {
            Some(i) => lookup(tokens_view(tokens@), token@) == Some(i as int) && i < tokens.len(),
            None => lookup(tokens_view(tokens@), token@) is None,
        },
{
    let ghost entries = tokens_view(tokens@);
    let mut i: usize = tokens.len();
    proof {
        assert(entries.take(i as int) =~= entries);
    }
    while i > 0
        invariant
            i <= tokens.len(),
            entries == tokens_view(tokens@),
            lookup(entries, token@) == lookup(entries.take(i as int), token@),
        decreases i,
    {
        i -= 1;
        proof {
            assert(entries.take(i + 1).last() == tokens[i as int]@);
            assert(entries.take(i + 1).drop_last() =~= entries.take(i as int));
        }
        if same_chars(&tokens[i], token) {
            return Some(i);
        }
    }
    proof {
        assert(entries.take(tokens.len() as int) =~= entries);
    }
    None
}

} // verus!
