//! The tasks: what each of them computes from the records it is given, and
//! the decisions of the executor that runs them.

pub mod stats;
pub mod util;
pub mod unique;
pub mod ranked;
pub mod topk;
pub mod botk;
pub mod count;
pub mod search;
pub mod output;
