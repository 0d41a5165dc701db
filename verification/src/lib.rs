//! Pruning byte-pair encoding: a subword tokenizer whose training may retract
//! merges it adopted earlier, and whose encoder replays the recorded merge and
//! split events in rank order.

pub mod alphabet;
pub mod cache;
pub mod decoding;
pub mod encoding;
pub mod keymap;
pub mod lengths;
pub mod model;
pub mod naming;
pub mod pairs;
pub mod pairtext;
pub mod pruning;
pub mod queue;
pub mod ranks;
pub mod record;
pub mod replay;
pub mod soundness;
pub mod spans;
pub mod spelling;
pub mod strmap;
pub mod tables;
pub mod text;
pub mod trainer;
pub mod training;
pub mod word;
