//! N-gram counting: the counting table and the bounded selection of the
//! most frequent n-grams.

pub mod lanes;
pub mod counter;
pub mod history;
pub mod topk;
pub mod window;
pub mod pipeline;
