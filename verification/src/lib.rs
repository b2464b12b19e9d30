//! Text-to-token-id encoding for BERT-style sequence classifiers: vocabulary
//! lookup, word splitting, greedy subword segmentation, and assembly of
//! padded and truncated id and attention-mask sequences, with a small batch
//! driver that keeps labels in sentence order.

pub mod text;
pub mod vocab;
pub mod segment;
pub mod bert;
pub mod normalize;
pub mod assemble;
pub mod pipeline;
pub mod decode;
