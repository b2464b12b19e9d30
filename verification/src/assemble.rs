//! Assembly of a token sequence into ids and an attention mask: special
//! tokens, truncation, id lookup, padding.

use vstd::prelude::*;
use crate::vocab::{tokens_view, Vocabulary};

verus! {

/// A sentence ready for the model: token ids and, position by position, 1
/// for a real token and 0 for padding.
#[derive(Debug)]
pub struct Encoded {
    pub ids: Vec<u32>,
    pub mask: Vec<u32>,
}

/// How to assemble sequences: the length to pad and truncate to, and whether
/// to pad and to truncate at all.
#[derive(Clone, Copy, Debug, PartialEq, Eq, Structural)]
pub struct EncodeConfig {
    pub max_length: usize,
    pub pad_enabled: bool,
    pub truncate_enabled: bool,
}

/// How many of `n` tokens stay: all of them, unless truncation is on and
/// they do not fit between the two special tokens, which are always kept.
pub open spec fn kept(n: int, max_length: int, truncate_enabled: bool) -> int {
    if truncate_enabled && n + 2 > max_length {
        if max_length >= 2 {
            max_length - 2
        } else {
            0
        }
    } else {
        n
    }
}

/// How many padding positions follow `len` real ones.
pub open spec fn padding(len: int, max_length: int, pad_enabled: bool) -> int {
    if pad_enabled && len < max_length {
        max_length - len
    } else {
        0
    }
}

/// The ids of a token sequence, unknown tokens taking the id of `[UNK]`.
pub open spec fn ids_of(vocab: &Vocabulary, tokens: Seq<Seq<char>>) -> Seq<u32> {
    Seq::new(tokens.len(), |i: int| vocab.spec_id_or_unk(tokens[i]))
}

/// The ids of the assembled sequence: `[CLS]`, the tokens that stay, `[SEP]`,
/// then padding.
pub open spec fn assembled_ids(vocab: &Vocabulary, tokens: Seq<Seq<char>>, config: EncodeConfig) -> Seq<u32> {
    let keep = kept(tokens.len() as int, config.max_length as int, config.truncate_enabled);
    let fill = padding(keep + 2, config.max_length as int, config.pad_enabled);
    seq![vocab.spec_cls_id()] + ids_of(vocab, tokens.take(keep)) + seq![vocab.spec_sep_id()]
        + Seq::new(fill as nat, |i: int| vocab.spec_pad_id())
}

/// The attention mask of the assembled sequence: 1 for `[CLS]`, for each
/// token that stays and for `[SEP]`, 0 for padding.
pub open spec fn assembled_mask(n: int, config: EncodeConfig) -> Seq<u32> {
    let keep = kept(n, config.max_length as int, config.truncate_enabled);
    let fill = padding(keep + 2, config.max_length as int, config.pad_enabled);
    Seq::new((keep + 2) as nat, |i: int| 1u32) + Seq::new(fill as nat, |i: int| 0u32)
}

/// The length of the assembled sequence.
pub open spec fn assembled_len(n: int, config: EncodeConfig) -> int {
    let keep = kept(n, config.max_length as int, config.truncate_enabled);
    keep + 2 + padding(keep + 2, config.max_length as int, config.pad_enabled)
}

/// Ids and mask have the same length, whatever the tokens and the
/// configuration.
pub proof fn lemma_ids_and_mask_align(vocab: &Vocabulary, tokens: Seq<Seq<char>>, config: EncodeConfig)
    ensures
        assembled_ids(vocab, tokens, config).len() == assembled_len(tokens.len() as int, config),
        assembled_mask(tokens.len() as int, config).len() == assembled_len(
            tokens.len() as int,
            config,
        ),
{
}

/// With padding and truncation both on, the assembled sequence has exactly
/// the configured length, provided that length has room for the two special
/// tokens.
pub proof fn lemma_fixed_length(n: int, config: EncodeConfig)
    requires
        n >= 0,
        config.pad_enabled,
        config.truncate_enabled,
        config.max_length >= 2,
    ensures
        assembled_len(n, config) == config.max_length,
{
}

/// Without padding the assembled sequence has its natural length, bounded by
/// the configured length when truncation is on.
pub proof fn lemma_natural_length(n: int, config: EncodeConfig)
    requires
        n >= 0,
        !config.pad_enabled,
    ensures
        assembled_len(n, config) <= n + 2,
        !config.truncate_enabled ==> assembled_len(n, config) == n + 2,
        config.truncate_enabled && config.max_length >= 2 ==> assembled_len(n, config)
            <= config.max_length,
{
}

/// Assembles subword tokens into ids and attention mask.
pub fn assemble(tokens: &Vec<Vec<char>>, vocab: &Vocabulary, config: EncodeConfig) -> (r: Encoded)
    ensures
        r.ids@ == assembled_ids(vocab, tokens_view(tokens@), config),
        r.mask@ == assembled_mask(tokens@.len() as int, config),
        r.ids@.len() == r.mask@.len(),
        config.pad_enabled && config.truncate_enabled && config.max_length >= 2 ==> r.ids@.len()
            == config.max_length,
{
    let ghost all = tokens_view(tokens@);
    let room: usize = if config.max_length >= 2 {
        config.max_length - 2
    } else {
        0
    };
    let keep: usize = if config.truncate_enabled && tokens.len() > room {
        room
    } else {
        tokens.len()
    };
    assert(keep == kept(tokens@.len() as int, config.max_length as int, config.truncate_enabled));
    let mut ids: Vec<u32> = Vec::new();
    let mut mask: Vec<u32> = Vec::new();
    ids.push(vocab.cls_id());
    mask.push(1u32);
    let mut i: usize = 0;
    while i < keep
        invariant
            i <= keep <= tokens.len(),
            all == tokens_view(tokens@),
            ids@ == seq![vocab.spec_cls_id()] + ids_of(vocab, all.take(i as int)),
            mask@ == Seq::new((i + 1) as nat, |k: int| 1u32),
        decreases keep - i,
    {
        ids.push(vocab.id_or_unk(&tokens[i]));
        mask.push(1u32);
        i += 1;
        assert(ids@ =~= seq![vocab.spec_cls_id()] + ids_of(vocab, all.take(i as int)));
        assert(mask@ =~= Seq::new((i + 1) as nat, |k: int| 1u32));
    }
    ids.push(vocab.sep_id());
    mask.push(1u32);
    let ghost body = ids@;
    let ghost ones = mask@;
    assert(ones =~= Seq::new((keep + 2) as nat, |k: int| 1u32));
    assert(body =~= seq![vocab.spec_cls_id()] + ids_of(vocab, all.take(keep as int))
        + seq![vocab.spec_sep_id()]);
    assert(ids@ =~= body + Seq::new(0, |k: int| vocab.spec_pad_id()));
    assert(mask@ =~= ones + Seq::new(0, |k: int| 0u32));
    if config.pad_enabled {
        while ids.len() < config.max_length
            invariant
                ids@.len() == mask@.len(),
                body.len() == keep + 2,
                ids@.len() >= body.len(),
                ids@.len() == body.len() || ids@.len() <= config.max_length,
                ids@ == body + Seq::new((ids@.len() - body.len()) as nat, |k: int| vocab.spec_pad_id()),
                mask@ == ones + Seq::new((ids@.len() - body.len()) as nat, |k: int| 0u32),
            decreases config.max_length - ids.len(),
        {
            ids.push(vocab.pad_id());
            mask.push(0u32);
            assert(ids@ =~= body + Seq::new(
                (ids@.len() - body.len()) as nat,
                |k: int| vocab.spec_pad_id(),
            ));
            assert(mask@ =~= ones + Seq::new((ids@.len() - body.len()) as nat, |k: int| 0u32));
        }
    }
    proof {
        let fill = padding(keep + 2, config.max_length as int, config.pad_enabled);
        assert(ids@.len() - body.len() == fill);
        assert(ids@ =~= body + Seq::new(fill as nat, |k: int| vocab.spec_pad_id()));
        assert(mask@ =~= ones + Seq::new(fill as nat, |k: int| 0u32));
    }
    Encoded { ids, mask }
}

} // verus!
